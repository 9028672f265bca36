# ddr-chart-tools

A library and command-line tools that convert songs between Dance Dance
Revolution (arcade) and StepMania 5, and modernize older DDR releases. Charts and
audio are converted together.

| from         | to    | chart                   | audio                        |
|--------------|-------|-------------------------|------------------------------|
| `DDR`        | `SM5` | SSQ → SSC               | XWB → OGG                    |
| `SM5`        | `DDR` | SSC or SM → SSQ         | OGG → XWB + XSB              |
| `DDR_LEGACY` | `DDR` | legacy SSQ → modern SSQ | XWB or WAVM → XWB + XSB      |
| `DDR_LEGACY` | `SM5` | legacy SSQ → SSC        | XWB or WAVM → OGG            |

## Layout

- `src/` is the library. Verus proves the contract of every function but those that
  call outside code: it believes those of five wrappers (`open_stream` and
  `read_packet` around the Vorbis decoder, `utf8_text`, `quoted` and `quoted_char`
  around std) and of `String::push`. What holds of several functions together stands
  beside them as proof functions whose names start with `law_`.
  - `model`: beats, tempos, notes and songs over exact fractions; tick rates; PCM.
  - `ssq`: the binary stepfile: tempo, events, steps and mines, reading and writing.
  - `ssq_legacy`: older stepfiles in modern shape.
  - `ssc`, `sm`: simfiles: the tag scanner, note grids, decimals, reading and writing.
  - `xwb`, `xsb`: wave banks with MS-ADPCM audio, a dump of a bank, and sound banks.
  - `wavm`, `ogg`: Xbox IMA ADPCM, and Ogg Vorbis at the edge of its codecs.
  - `job`: the four conversions from file contents to file contents, naming, closing
    events, sound-effect banks, and the summary of a batch.
  - `cli`, `util`, `error`: planning of jobs, pairing of files, bytes and texts.
- `app/` is the two programs: arguments, files, logging, the Vorbis encoder and
  what needs floating point. It is `ddr-chart-tools`, and `ddr-se-bank` when it is
  called by that name or as `ddr-chart-tools se-bank`.
- `tests/` runs the library on concrete files.

## What the contracts say

A parser's contract gives its result for every input, errors with their texts
included, as a function of the bytes or characters (`ssq_outcome`, `ssc_outcome`,
`xwb_outcome` and so on). A writer's contract gives the bytes (`ssq_file`,
`ssc_written`, `bank_file`, `xsb_file`). The laws then relate the two: what was
written reads back, in each format and from one to the other.

Ogg Vorbis is decoded by the `lewton` crate. Some files would make it fail to return.
`ogg::pages` puts the packets of a file together, `ogg::stream` follows the decoder
through them, and `ogg::decode` refuses such a file before the decoder sees it: one
that names a mode whose tables lead out of bounds, or whose tables would fill any
memory. Whether another file decodes, its channel count and sample rate, and the
number of samples in each packet are functions of the file. The values of the samples
come from floating-point arithmetic, so nothing is claimed of them; that they are
joined unchanged and in order is the contract of `join_replies`.
