# ale_frame

ALEPKT framing for EuroRadio (ERTMS/ETCS) communication, verified with Verus.

The Adaptation Layer Entity (ALE) sits between the EuroRadio Safety Layer and TCP. It turns
discrete Safety Layer PDUs into a framed byte stream, as UNISIG Subset-098 v3.0.0 (6.4.5) and
Subset-037 v3.2.0 (8.3.2) specify. This crate frames and reassembles the packet types AU1, AU2, DT
and DI in the single-link Class D profile.

## Layout

| Path | Contents |
|------|----------|
| `src/crc.rs` | CRC-CCITT; that it is the remainder modulo x^16 + x^12 + x^5 + 1, and that it detects every error within sixteen consecutive bits |
| `src/header.rs` | the 10-octet header: encode, decode, build |
| `src/frame.rs`, `src/stream.rs` | what a frame is, and what a stream of octets says |
| `src/writer.rs` | `AleFrameWriter`: framing and the T-Sequence counter |
| `src/reader.rs` | `AleFrameReader`: streaming reassembly |
| `src/exchange.rs` | what one peer writes, the other reads, however the transport cuts it |
| `src/handshake.rs` | AU1 and AU2 user data |
| `src/error.rs`, `src/text.rs` | errors and their texts |
| `app/` | ordinary Rust around the library: `std::io` transports, standard errors, a two-peer demonstration |

## Usage

```rust
use ale_frame::{AleFrameReader, AleFrameWriter, ALE_PKT_DT};

let mut writer = AleFrameWriter::new(0x1A);
let mut buf = Vec::new();
writer.write_alepkt(&mut buf, ALE_PKT_DT, b"payload").unwrap();

let mut reader = AleFrameReader::new();
let frames = reader.feed(&buf).unwrap();
assert_eq!(frames[0].user_data, b"payload");
```

To send over a transport that can fail, take the octets from `next_alepkt`, write them, and hand
the outcome to `finish_write`: the counter advances only for what was sent.

A reader that has refused a header answers every later chunk with the same error. The connection is
to be closed and opened anew, with a new reader.
