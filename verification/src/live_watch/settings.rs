use vstd::prelude::*;

verus! {

/// Which precomputed rendering of a file the display shows.
#[derive(Debug, PartialEq, Eq, Structural, Clone, Copy)]
pub enum TextMode {
    /// Line segments, blank-only lines omitted.
    Newline,
    /// Line segments, every line kept.
    AllNewline,
    /// The whole text as one selectable unit.
    Selectable,
    /// The whole text as one unit.
    Standard,
}

/// The display preferences the consumer can change at runtime.
pub struct Settings {
    text_mode: TextMode,
    word_wrap: bool,
}

impl Settings {
    pub closed spec fn text_mode_spec(&self) -> TextMode {
        self.text_mode
    }

    pub closed spec fn word_wrap_spec(&self) -> bool {
        self.word_wrap
    }

    /// Fills each preference from the given value, or its default when
    /// none is given.
    pub fn new(text_mode: Option<TextMode>, word_wrap: Option<bool>) -> (r: Settings)
        ensures
            r.text_mode_spec() == (match text_mode {
                Some(t) => t,
                None => TextMode::Standard,
            }),
            r.word_wrap_spec() == (match word_wrap {
                Some(w) => w,
                None => true,
            }),
    {
        let text_mode = match text_mode {
            Some(t) => t,
            None => TextMode::Standard,
        };
        let word_wrap = match word_wrap {
            Some(w) => w,
            None => true,
        };
        Settings { text_mode, word_wrap }
    }

    pub fn default() -> (r: Settings)
        ensures
            r.text_mode_spec() == TextMode::Standard,
            r.word_wrap_spec() == true,
    {
        Self::new(None, None)
    }

    pub fn text_mode_mut(&mut self) -> (r: &mut TextMode)
        ensures
            *r == old(self).text_mode_spec(),
            final(self).text_mode_spec() == *final(r),
            final(self).word_wrap_spec() == old(self).word_wrap_spec(),
    {
        &mut self.text_mode
    }

    pub fn text_mode_ref(&self) -> (r: &TextMode)
        ensures
            *r == self.text_mode_spec(),
    {
        &self.text_mode
    }

    pub fn word_wrap_mut(&mut self) -> (r: &mut bool)
        ensures
            *r == old(self).word_wrap_spec(),
            final(self).word_wrap_spec() == *final(r),
            final(self).text_mode_spec() == old(self).text_mode_spec(),
    {
        &mut self.word_wrap
    }

    pub fn word_wrap_set(&mut self, set_to: bool)
        ensures
            final(self).word_wrap_spec() == set_to,
            final(self).text_mode_spec() == old(self).text_mode_spec(),
    {
        self.word_wrap = set_to;
    }

    pub fn word_wrap_ref(&self) -> (r: &bool)
        ensures
            *r == self.word_wrap_spec(),
    {
        &self.word_wrap
    }
}

} // verus!
