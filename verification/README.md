# goldworm

The integer core of the GoldWorm substrate, with every function proved
against its contract by Verus.

## Library (`src/`)

| Module | What it holds |
|---|---|
| `grid` | ARC grids (at most 30 by 30, colors 0-9) and tasks |
| `arc_program` | 8-byte operation tokens, programs, their byte form and description |
| `arc_spec` | the meaning of each grid operation over rows of cells, and its laws |
| `arc_apply` | applying tokens and programs to grids |
| `arc_parser` | 4-connected components in depth-first visiting order, color statistics, object graphs |
| `substrate` | neuron indices, spike events, bounded spike buffers, chat arenas |
| `wire`, `text` | little-endian fields; decimal and hex rendering |
| `shd_ccp` | the 12-byte-per-event spike packet format |
| `datatype`, `payload` | the framed SHD1 format: header, type tags, integer payload codecs, conversation turns as bytes |
| `dvs` | DVS events, the pending window of an encoder, window spikes |
| `token_decoder`, `token_spikes` | spikes to words; words to spikes with random jitter |
| `replay`, `event_log` | the replay ring with uniform sampling, and the bounded event log |
| `response` | filling sentence templates with selected words |
| `scaling` | scale factors and network shapes scaled up and down |
| `tripartite`, `snn`, `moa`, `harness`, `cuda`, `curriculum`, `chat_types` | smaller parts |

Random numbers come from the `rand` crate through one trusted function in
`random.rs`; nothing is assumed of its values.

## Around the library (`app/`)

Everything that computes in floating point (temporal DVS delays, feature
projections, the tripartite spike values, payloads of float types, replay
priorities, word rates), the `Any`-based service container of the harness,
and the JSON event sink.

## Outside this crate

The floating-point network parts of the substrate are outside its scope: the
reasoning engine, the online learner, the SHD encoder, quaternion attention,
the geometric bottleneck, the infomax reward, the UCB explorer, the
avalanche-guided word selector and the ARC streaming loop all compute in
`f32`/`f64` throughout, with no integer decision that could be parted from
the arithmetic.
