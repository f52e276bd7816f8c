# stillkit

The `still` photo tool: classifying files by extension, organizing photos
into month and day directories, rating images through star suffixes in their
names, generating previews and adjusting exposure.

- `src/` is the library, written in Verus: every function carries a contract
  and the laws of the tool (every photo is planned exactly once, a rating
  written into a name is read back, clusters never span a month or a gap of
  more than two days, ...) are proof functions beside the code.
- `app/` is the `still` program around it: the command line, the file
  system, image codecs, external converters and the terminal screen.
- `tests/` runs the library on concrete inputs.
