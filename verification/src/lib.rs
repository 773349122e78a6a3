pub mod planning;
