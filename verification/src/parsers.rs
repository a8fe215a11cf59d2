pub mod front_matter;
