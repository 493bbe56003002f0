[package]
name = "unique_files"
version = "0.1.0"
edition = "2021"
publish = false

[dependencies]
sha2 = "0.10"
log = "0.4"
chrono = "0.4"
colored = "2"
cpp_core = "0.6"
qt_core = "0.5"
qt_gui = "0.5"
qt_widgets = "0.5"
