pub mod fstree;
