# vector_beam

A tiny vector-display renderer: line segments are drawn as glowing beams, like the
strokes on an old oscilloscope or a vector arcade monitor. All that it decides and
computes is a library verified with [Verus](https://github.com/verus-lang/verus);
the window, the graphics card and the clock are left to a small program around it.

## Layout

- `src/` is the library. Every function has a contract, and the laws that tie the
  functions together are public proof functions whose names begin with `law_`.
  - `binary32`, `rounding`, `natural`, `decimal`: single-precision numbers held by
    their encodings, with the rounding of the hardware, and read from text.
  - `order`: how rounding goes with the order of the numbers.
  - `geometry`: the scenes, their strokes in beam path order, and their motion.
  - `scan`: the scheduler that slices the stroke list into subframes.
  - `glyphs`, `font`, `text_block`: the stroke font, the layout of text, and where
    laid out text comes to lie.
  - `cli`: the command line.
  - `render`, `bloom`, `buffers`, `screenshot`: what a frame, the halo, the buffers
    and a capture are made of.
  - `telemetry`: latencies and the bookkeeping of the graphics timer.
- `tests/` runs the library, and holds its arithmetic against that of the machine.
- `app/` is the program: `wgpu` and `winit` plumbing, `glam` matrices, and files. It
  reads its shaders (`beam.wgsl`, `decay.wgsl`, `bloom.wgsl`, `tonemap.wgsl`) from the
  directory `shaders` at run time.

## Use

```sh
vector-beam                                   # a tumbling cube in a window
vector-beam --scene lissajous --persistence 0.25
vector-beam --screenshot docs/screenshot.png 1280x960
```

| Flag | Meaning |
| --- | --- |
| `--scene NAME` | `cube`, `lissajous`, `ship`, `ufo` or `draw` |
| `--persistence SECONDS` | time constant of the phosphor; 0 turns trails off |
| `--present-mode MODE` | `immediate`, `mailbox` or `fifo` |
| `--fullscreen` | borderless fullscreen |
| `--no-scan` | draw the whole scene in every frame |
| `--hw-hz HERTZ` | refresh rate of the display |
| `--screenshot [PATH] [WxH]` | write one frame to a PNG file |

The ship is flown with the arrow keys, or with A, D and W. S turns scan mode on and
off.

## What is trusted

Verus reads the enums of `wgpu` and `winit` that the library names. Four small
functions call outside code with contracts that are stated and not proved: `{:?}` of a
text (`cli`), the row alignment of `wgpu` (`screenshot`), the encoder of `png`
(`screenshot`), and `bytemuck::cast_slice` (`buffers`).
