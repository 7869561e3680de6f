# vyges_lvs

Layout-versus-schematic comparison of SPICE netlists, written in Verus.

- `src/` is the verified library: the SPICE reader and hierarchy flattener,
  the job file, the circuit graph, colour refinement, the divergence report,
  the device-pairing search and its independent bijection check, the verdict,
  and the text and JSON reports.
- `src/invariance.rs` proves that two netlists describing the same circuit
  never produce a divergence and always admit the pairing the search looks
  for, so that such a comparison is a MATCH when the port lists agree; it
  also proves that renaming nets and devices gives the same circuit.
- The pairing search counts its trials and never makes more than a bound
  computed from the sizes of the refinement's colour classes
  (`search_size`); a circuit whose devices the refinement tells apart is
  searched in one forward pass. When the bound fits the budget the verdict
  is decided: a confirmed MATCH for the same circuit, a MISMATCH otherwise.
- `src/extract.rs` proves that the SPICE text written for a netlist reads
  back as that netlist.
- `app/` is the command-line program: file I/O, the floating-point parameter
  model, the layout extractor and the event stream.
- `tests/` runs the library on concrete netlists.
