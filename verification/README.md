# pil2_stark_setup

The verified core of a STARK proving-key setup tool: from the expressions,
constraints, symbols and hints of an AIR it derives the constraint and FRI
polynomials, the intermediate polynomials that keep the constraint degree
within a bound, the column maps, the generated evaluation code, the parser
arguments of that code, and the binary files the prover reads.

Every executable function in `src/` is checked by Verus against its
`requires` / `ensures` contract, except one trusted wrapper:
`fixed_cols::utf8_string`, which calls std's `String::from_utf8` and whose
contract (success exactly on valid UTF-8, and the string then encodes to the
bytes) is assumed. The contracts are stated over mathematical models (`Seq`,
`Map`, `Multiset`, views of the expression arena).

## Layout

- `expression.rs`, `types.rs`, `stark_info.rs`, `pilout_info.rs`: the data
  model (expression arena, code entries, symbols) and its views.
- `helpers.rs`: the annotation pass (degree, dimension, stage, row offsets)
  and the evaluation map.
- `constraint_poly.rs`, `fri_poly.rs`: the folded constraint polynomial and
  the FRI polynomial.
- `im_polynomials.rs`: degree computation, the search for intermediate
  polynomials and their insertion as columns.
- `symbols.rs`: the symbol list of an AIR from the compiled PIL's symbols
  (column indexes, challenge numbering, array expansion).
- `map.rs`, `print_expression.rs`: column maps, stage positions and the
  printed form of expressions.
- `codegen.rs`, `generate_pil_code.rs`: code generation for expressions,
  constraints, hints and the verifier.
- `fixed_cols.rs`: the constants file (write, read, and reading back what
  was written) and the row-major buffer of fixed columns.
- `parser_args.rs`, `bin_file.rs`, `bin_file_writer.rs`: the argument
  encoding of the generated code and the binary expression files.
- `setup_cmd.rs`, `pil_info.rs`, `compressor_check.rs`, `verifier_rs_gen.rs`,
  `recursive_setup.rs`, `text.rs`: the AIRs a run computes and the settings
  each takes, opening points, the column maps and boundaries of an AIR's
  description, global hints, memory estimates, the compressor decision, the
  verifier source and decimal text.

The tests in `tests/` run the library on concrete inputs.
