# mathsolver

A math solver that asks a language model for help and believes only what it has computed itself.
The caller brings the API key.

The model is asked for a small program, the steps in words, and a check: an expression with a
placeholder `{x}` that must come to zero when the answer is put in. The answer is what the program
computes when it is run here. It is `verified` only where the check, run here too, passes. What the
model writes is read by a small grammar of arithmetic and is never run as code.

The library is written in Verus. Every function has a contract that says what it returns, and
Verus proves that it does. What is called of `serde_json`, and four functions of `std`, have
contracts that are believed; they stand in `src/json.rs`, `src/text.rs` and `src/error.rs`.

## Layout

- `src/lexer.rs`, `src/grammar.rs`, `src/eval.rs`: expressions. The grammar is a specification:
  what tree a text stands for, or what is wrong with it, and what a tree evaluates to.
- `src/number.rs`: the numbers that expressions are evaluated in. They are a parameter, the trait
  `Real`; contracts say which operation is applied to which operands.
- `src/program.rs`, `src/check.rs`: programs of assignments, and checks.
- `src/reply.rs`, `src/session.rs`, `src/client.rs`: what is read out of replies, what is asked of
  the model and when it is asked again, and how a client carries a session over a transport.
- `src/json.rs`: the calls into `serde_json`, with the contracts that are trusted of them.
- `src/text.rs`, `src/error.rs`: characters and strings, and the error type.
- `src/laws.rs` and the files below `src/laws/`: what holds of the crate as a whole, as proof
  functions. Among them: an answer is always what the program shown with it computes, it is
  verified only where a check passed, a session takes at most three replies, and operators bind as
  they do on paper.
- `app/`: `f64` as the numbers, HTTP as the transport, and the traits of `std` that callers expect.
- `tests/`: tests in `f64`.

## Use

```rust
let solver = MathSolver::with_transport("sk-...", "https://api.deepseek.com/v1", transport)?
    .model("deepseek-chat");
let r = solver.solve::<F64>("2x + 3 = 11, solve for x")?;
assert!(r.verified);
```

A client without a transport of its own hands each request to the caller:

```rust
let solver = MathSolver::new("sk-...", "https://api.deepseek.com/v1")?;
let session = Session::start("2x + 3 = 11, solve for x")?;
let request = solver.request(&session);
// send it, and give the reply to the session
let progress = session.advance::<F64>(reply);
```
