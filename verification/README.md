# enigma_firmware

Firmware for an Electro-Smith Daisy Seed module that tracks the pitch of a
control voltage with a bank of resonators.

- `src/` is the verified library (Verus): the rolling rank filter that
  debounces the control-voltage inputs (`debounce::Median`), the choice of the
  strongest resonator of a bank (`dsp::strongest`), and the two-stage
  processing chain (`dsp::Chain`). Samples reach the library as `u32` keys; a
  non-negative `f32` is keyed by its bit pattern, which orders as its value.
- `app/` is the firmware around it: the RTIC tasks, board and ADC bring-up,
  and the floating-point signal processing (filters, phasor, resonators).
- `tests/` exercises the library on concrete inputs.
