# multi

Live multilingual captions for video streams. A stream comes in over SRT, UDP or
RTP; its speech is recognised and translated by worker processes; the text goes
back into the video as CEA-608/708 captions, without re-encoding; the result goes
out over SRT, UDP or RTMP.

`src/` is the library: everything that decides or computes, verified with Verus.

- Caption bytes: `cc`, `cea608`, `cea708`, `charset`, `text`, `mux`, `annexb`, `nal`.
- Caption text on its way to the encoders: `lanes`, `captions`, `captioner`, `encoder`.
- Time: `bridge`, `epochs`, `clock`, `reorder`.
- Media pipelines: `plan` (which elements, how set, how linked), `media` (when they
  are rebuilt), `audio`, `passthrough`, `url`.
- Speech and translation: `words`, `segment`, `textpath`, `translate`, `script`.
- Processes: `ipc`, `worker`, `supervisor`, `run`, `backoff`, `config`.
- Measuring: `ts`, `probe`, `report`, `csv`, `srt`, `transcript`, `matching`, `wav`.

Modules named `.._laws` state what holds across several functions. Proof functions
named `law_..` elsewhere do the same for one module.

`app/` is the program around it: arguments, files, sockets, processes, GStreamer,
FFmpeg, sherpa-onnx and CTranslate2.
