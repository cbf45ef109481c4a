# kithara

The decisions of an audio player and of its test fixtures, as a Verus library.
What a function does is stated in its contract and proved; what the parts
promise together is stated in proof functions whose names begin with `law_`.

- Track analysis: `coverage`, `schedule`, `session`, `snapshot` and `task`
  decide what a pass decodes next, what it takes and what it publishes; `ring`
  and `producer` carry ranges to it; `runs` assembles detector-rate mono;
  `buffer`, `time` and `detector` are what they share.
- Player items: `item`, `observer_set`, `player` and `android`.
- Signals: `signal_source`, `signal_pcm`, `signal_url`, `wav` and
  `audio_encode`.
- Synthetic HLS streams: `hls_spec`, `hls_url`, `hls_stream`, `hls_route`,
  `hls_blob_store`, `hls_fixture`, `token_store` and `test_server`.
- Text and bytes: `text`, `hex_text` and `bytes`.
- `outside` holds the calls into other crates with what is believed of them;
  those into `ringbuf` are in `ring`.

What a player plugs in is a trait: a `PcmReader`, a resampler (`MonoStream` and
`ResamplerBackend`), a `Queue`, a `SignalFn`. A reader and a queue are held to
nothing they answer; their contracts only record what they were asked and what
they answered, and the library says what it makes of each answer. A resampler and
a signal are pure: what they give is a function of what they were given.

Floating-point numbers do not occur in the library: samples, seconds and
confidences are carried as bit patterns, and a closure computes with them where
a decision needs it. `app/` holds what does: signals made of sines, means, HTTP,
serialisation, shared state and the ffmpeg encoder, which needs ffmpeg's own
libraries to build.
