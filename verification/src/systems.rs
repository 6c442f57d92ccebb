pub mod player_input;
