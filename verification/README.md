# cmote

Scanners for the escape sequences a terminal engine leaves unread, with their contracts proved
by Verus. Each scanner is fed a terminal's output in arbitrary chunks and reports what it found,
each finding at its byte offset in the chunk.

- `csi`, `dcs`, `osc` — the three framers: control sequences, device control strings and
  operating system commands cut out of a stream, with the engine's bounds on parameters and
  payloads. `bytes` and `text` hold the byte-string and text helpers they share.
- `protect` — selective erase: DECSCA, DECSED, DECSEL, DECSTR, and the erase regions.
- `rect` — the rectangular area operations, their resolution against a page into the action an
  engine takes, attribute folds, checksums, column insertion and deletion on rows of cells, and
  the unscroll: rows moved back from the scrollback and the renumbering that goes with them.
- `query` — the identity queries (XTVERSION, DECRQSS, XTGETTCAP, DA3, XTSMGRAPHICS) and their
  replies.
- `osc133`, `pointer`, `progress`, `notify`, `modkeys`, `presentation` — shell-integration
  marks, pointer shapes, progress reports, refused notifications, `modifyOtherKeys`, and the
  presentation state reports.
- `mouse` — pointer events encoded as mouse reports; `pen` — a pen spelled back as SGR;
  `scanned` — one chunk's findings merged into stream order, and the plan of advances and
  stops that takes the chunk through an engine; `lines` — line-number conversions.

Laws that span calls — that a stream cut anywhere reads as it reads whole, that merged findings
come out in offset order, and the like — are public proof functions named `law_*`.
