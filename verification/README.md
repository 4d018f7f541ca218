# speech_enhance

Signal processing for real-time speech enhancement, verified with Verus.

* `src/` is the library: windows, overlap-add streams, ERB bands, normalizations, a post filter,
  statistics, the stream around a recurrent model, sound file samples, the order of loading a
  model, and the rewriting that replaces its constant scatter operations by block copies. Every
  item is verified; the only items taken on trust are those of `src/tensor.rs`, which read the
  inference engine's tensors, and the one of `src/load.rs` that decodes an ONNX file.
* `tests/` runs the library on 32-bit floating point numbers, a real Fourier transform and real
  tensors.
* `app/` is the command line program: floating point numbers as samples, the Fourier transform,
  the inference engine, and reading and writing WAV files. The model is read from
  `models/gtcrn_simple.onnx` in this package.

The library is written over a trait of samples whose operations promise nothing. A contract says
which operations are applied to which values and in which order, so it holds for any number
format, rounding included.
