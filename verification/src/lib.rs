pub mod text;
pub mod token_map;
pub mod vocab;
pub mod weights;
pub mod model_binary;
pub mod unicode;
pub mod normalizer;
pub mod wordpiece;
pub mod huggingface;
