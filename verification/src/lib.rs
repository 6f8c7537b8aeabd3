//! Pixel, layer and text-model operations of a raster image editor,
//! with their behaviour stated as contracts and proved.
pub mod raster;
pub mod effects;
pub mod effect_laws;
pub mod effect_settings;
pub mod outline;
pub mod canvas;
pub mod clipboard;
pub mod text;
pub mod text_layer;
pub mod text_block;
pub mod text_layer_data;
pub mod shapes;
pub mod transform;
pub mod scripting;
pub mod script_error;
