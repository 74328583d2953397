pub mod sf_cmd;
