# fuzz_web

The controller of a kernel fuzzer: it starts QEMU fuzzing workers, gathers
the program counters they reach, maps them to source lines, and serves an
HTML coverage report.

- `src/` is the verified library (Verus):
  - `escape`, `lines`, `page`: escaping, line splitting and the page of one
    covered source file;
  - `tree`, `order`, `index`, `report`: the sidebar's file tree, name
    ordering, the index page, and adding one file to a report;
  - `paths`: the names of report and worker files;
  - `pcs`, `coverage`, `locations`: decoding the counters that workers send,
    merging covered lines, and reading `addr2line` output;
  - `qemu`: configuration, CPU vendor detection, QEMU arguments and worker
    command lines, environments and ports;
  - `text`: character helpers.
- `app/` is the program around it: the HTTP server, sockets, processes and
  files, and the coverage percentages, which are formatted in floating point.
- `tests/` runs the library on concrete inputs.
