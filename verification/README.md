# nmea_capture

Capture of NMEA 0183 sentences received over UDP, with an optional bridge to
DDS. The library in `src/` holds the logic, verified with Verus:

- `nmea` — splitting a received buffer into lines (`\r\n`, `\r` and `\n`
  each end one line), with the laws that lines hold no terminator, that each
  terminator ends exactly one line, and that the lines rejoined with `\n`
  give the normalized text.
- `sentence` — the talker and mnemonic of a line (by character position),
  and its comma-separated
  data fields (split and rejoin laws).
- `records` — reading RMC and GGA sentences into records, and choosing what
  to republish for a received raw line; records are numbered one after
  another with no gap or repeat.
- `text` — cutting text at ASCII delimiters and reading unsigned decimals.
- `dds_types`, `cli` — the raw-line record and the command-line settings.

`app/` is the program around it: UDP reception, printing, JSON, DDS
publication and subscription, and the reading of decimal fractions as
floating-point numbers. Started as `nmea_dds_sub`, the program acts as the
subscriber that republishes RMC and GGA records.
