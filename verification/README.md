# video_transcriber

A desktop tool that turns the speech of an MP4 or WebM video into SRT,
WebVTT and JSON transcripts with FFmpeg and `whisper-cli` (whisper.cpp).

The decisions of the tool are a library verified with Verus (`src/`):

- `media`: size, extension and container magic checks of the input video;
  reading of FFmpeg's failure output.
- `vad`: voice-activity segmentation over 30 ms frames, cutting of speech
  into chunks of at most a given length (30 s in the pipeline), and the check of the extracted WAV format.
- `srt`: parsing of the recogniser's SRT output into cues.
- `timestamp`, `number`, `decimal`: SRT timestamps, each field read with
  the grammar of a floating-point number (sign, fraction, exponent,
  `inf`, `infinity`, `nan`), and summed exactly in decimal; the SRT and
  WebVTT writers round the sum to whole milliseconds, the JSON transcript
  takes it as the nearest `f32` of seconds.
- `timefmt`: SRT and WebVTT timestamps.
- `transcript`: numbering and rendering of the cues into the three output
  files.
- `session`: the window's state between frames.
- `text`: character-sequence operations (`trim`, `lines`, `split`, `join`).
- `roundtrip`: proof that the SRT text written for some cues reads back as
  those cues.

`app/` holds the program around the library: the egui window, the file
dialogs, running FFmpeg and `whisper-cli`, WAV input and output, the
floating-point frame energy, and the JSON serialisation.
