# opus_rs

Multistream Opus decoding without the codec: splitting a multistream packet into
the packets of its elementary streams, and routing decoded samples to the output
channels. Every function of the library is verified with Verus.

- `src/frame_size.rs`: the length field of a frame
- `src/multistream/table.rs`: the channel mapping table of a header
- `src/multistream/framing.rs`, `framing_laws.rs`: normal and self-delimiting
  framing, and what holds of splitting
- `src/multistream/split.rs`: splitting off a self-delimited packet
- `src/multistream/demux.rs`: how a multistream packet divides among its streams
- `src/multistream/routing.rs`: how samples get from the streams to the output
- `src/multistream/pass.rs`: one packet, stream by stream, with the elementary
  decoders outside
- `src/multistream/decoder.rs`: setting up the streams, and a whole packet at once
- `app/`: decoding to `f32` over any elementary decoder
