pub mod text;
pub mod model;
pub mod cmark;
pub mod markdown;
pub mod style;
pub mod layout;
pub mod highlight;
pub mod graphics;
pub mod tmux;
pub mod tmux_pane;
pub mod deck;
pub mod slides;
pub mod images;
pub mod render;
pub mod nav;
