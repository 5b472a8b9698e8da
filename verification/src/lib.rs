//! Live captioning: caption encoders, stream surgery, worker protocol and the
//! rules that tie them together.
use vstd::prelude::*;

pub mod annexb;
pub mod annexb_laws;
pub mod audio;
pub mod backoff;
pub mod bridge;
pub mod captioner;
pub mod captions;
pub mod cc;
pub mod cea608;
pub mod cea608_laws;
pub mod cea708;
pub mod cea708_laws;
pub mod charset;
pub mod charset_laws;
pub mod chars;
pub mod clause_laws;
pub mod clock;
pub mod config;
pub mod config_laws;
pub mod counter;
pub mod delivery_laws;
pub mod encoder;
pub mod epochs;
pub mod io_laws;
pub mod ipc;
pub mod lanes;
pub mod matching;
pub mod measure_laws;
pub mod media;
pub mod mux;
pub mod mux_laws;
pub mod nal;
pub mod numbers;
pub mod reorder;
pub mod passthrough;
pub mod plan;
pub mod plan_laws;
pub mod probe;
pub mod receiver_608;
pub mod report;
pub mod csv;
pub mod decimal;
pub mod run;
pub mod running_laws;
pub mod script;
pub mod segment;
pub mod segment_laws;
pub mod sei_laws;
pub mod srt;
pub mod supervisor;
pub mod text;
pub mod textpath;
pub mod timing_laws;
pub mod transcript;
pub mod translate;
pub mod translate_laws;
pub mod ts;
pub mod ts_field_laws;
pub mod ts_laws;
pub mod types;
pub mod url;
pub mod url_laws;
pub mod wav;
pub mod words;
pub mod words_laws;
pub mod worker;
pub mod wrap_laws;

verus! {

} // verus!
