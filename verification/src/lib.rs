//! MinVoice's verified core: local LiveKit token issuing, settings and
//! listening preferences, and the decisions of a voice session.

pub mod codec;
pub mod settings;
pub mod text;
pub mod token;
pub mod voice;
pub mod volume;
