//! The terminal front end: the line being typed, the rows on screen, and what a
//! key does.

pub mod bar;
pub mod bar_laws;
pub mod caret_laws;
pub mod complete;
pub mod complete_laws;
pub mod drive;
pub mod editor;
pub mod editor_laws;
pub mod flow_laws;
pub mod frame;
pub mod frame_laws;
pub mod intent;
pub mod key_laws;
pub mod keys;
pub mod lane;
pub mod line;
pub mod list_laws;
pub mod live_laws;
pub mod looping;
pub mod menu;
pub mod pane;
pub mod pane_laws;
pub mod panel;
pub mod panel_draw_laws;
pub mod panel_laws;
pub mod press_laws;
pub mod row;
pub mod row_laws;
pub mod screen;
pub mod screen_laws;
pub mod scroll;
pub mod settings;
pub mod shelf;
pub mod status;
pub mod surface;
pub mod thinking;
pub mod transcript;
pub mod transcript_laws;
pub mod ui;
pub mod vim;
pub mod wrap_laws;
