pub mod generic_windows;
