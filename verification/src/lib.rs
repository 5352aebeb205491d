pub mod ruggers;
