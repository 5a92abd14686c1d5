pub mod static_files;
