pub mod cloud;
