# strixonomy

A verified library for editing and inspecting OWL/RDF ontologies written in Turtle: patch
operations on Turtle text, Manchester-syntax class expressions (parsing, rendering, Turtle
fragments, JSON trees), prefix and IRI handling, statement spans, SPARQL helpers, and the
plugin host's lifecycle (activation order, activation, deactivation, disabling).

- `src/` is the library. Its functions are proved by Verus against their contracts, except a
  few small wrappers marked `#[verifier::external_body]` that call `regex`, `serde_json` or
  std (each says in its doc comment what its contract claims of the call); those contracts
  are trusted, not proved. The laws of the library (for example that a failed patch batch
  leaves the text unchanged, or that the activation order is topological) are public proof
  functions named `law_*`.
- `tests/` runs the library on concrete inputs.
- `app/` is the thin layer around it: file and process I/O, serde_json values.

Verify with Verus from this directory; the outside crates are `regex` and `serde_json`.
