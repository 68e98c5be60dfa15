# tuner_dsp

The verified core of a chromatic tuner that estimates pitch with the YIN
algorithm.

- `src/` (Verus): the circular audio buffer (`ring_buffer`), the lag searches
  of YIN on ordering keys of the CMNDF (`yin_search`, `extrema`), and the
  bit-reversal reordering of the FFT (`fft_order`).
- `app/`: the float and complex arithmetic around that core (FFT
  butterflies, difference function, interpolation, pitch smoothing, signal
  generators) and the `wasm_bindgen` export `WasmTuner`.
- `tests/`: tests of the library, run with the real sample types.
