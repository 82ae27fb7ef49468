# bootfrost

An automated theorem prover for first-order formulas with extensions
(interpreted functions on integers, strings and lists), written in Verus:
the library under `src/` is verified, the command-line program under `app/`
reads files and talks to the user.

    bootfrost --formula <FILE> --strategy <plain|general|manualfirst|manualbest> --limit <STEPS>

We recommend the general strategy for automatic runs.

## Formulas

A formula is a tree of typical quantifiers, one per line, nested by
indentation (a space counts one column, a tab moves to the next multiple of
eight). `!` is the universal and `?` the existential quantifier; the
quantifiers of one parent form a conjunction (universal) or a disjunction
(existential). The whole text sits under an implicit root `!`.

    ? P(a), Q(b)            # facts: the base of the first branch
        ! x: P(x)           # a question: for every x with P(x) ...
            ? R(x)          # ... the branch goes on with R(x)
        ! y: R(y)           # R(y) closes a branch

A line is

    ('!' | '?') [name {',' name} ':'] [term {',' term}] ['$' term {',' term}]

with the variables before `:`, the conjunct, and the commands after `$`.
Terms are comparisons (`==`, `!=`, `<`, `>`, `<=`, `>=`, `in`, `notin`,
`subseteq`), sums (`+`, `-`, `++`), products (`*`), and primaries: integers,
`"strings"`, `true`, `false`, names, `f(t, ...)` and parentheses. `#` starts
a comment; a line ending with `~` continues on the next one.

The interpreted functions are `+ - * < > <= >= == != ++`, `replace`,
`string`, `push`, `first`, `last`, `notempty`, `in`, `notin`, `subseteq`,
`sort`, `blen`, `base_to_string`, `remove_fact`, `read_file_to_string` and
`solve` (which runs a prover on the formula written in a string).

## Layout

- `src/term.rs`, `src/plain.rs`, `src/grammar.rs`, `src/parser.rs`: terms
  and their tables, the grammar of a formula line (as spec functions), the
  reader of formula texts (proved to follow the grammar), and the
  translation of formula trees into term tables.
- `src/base.rs`, `src/answer.rs`, `src/context.rs`, `src/attributes.rs`:
  facts, answers under construction, contexts of branches, fact attributes.
- `src/ifunctions.rs`, `src/solver.rs`, `src/question.rs`,
  `src/strategies.rs`: the interpreted functions, rewriting and matching,
  the search for answers, the strategies and the prover loop.
- `src/manual.rs`, `src/render.rs`: reading the user's lines and showing
  terms, formulas and answers.
- `app/main.rs`: the command line, files, and the terminal.

## What is proved

Besides memory safety and the absence of overflow and panics, the contracts
state, among other things: that reading a text gives exactly the formula tree
the grammar and the indentation rules describe (`g_text`), and which error
otherwise; that the translated formulas read as the written ones, one formula
per node, with fresh variables of the right kind; that rewriting substitutes
bindings, keeps uninterpreted functors and evaluates the pure interpreted
functions on the rewritten arguments (so `1 + 2` rewrites to `3`); that
matching a fact against a question term goes exactly as the step-by-step
description `match_run` says (result and bindings) wherever it meets no
interpreted functor; that the search of a question, when every new answer is
taken, ends exactly as the step-by-step run `search_run` says (which answer it
finds, or that it finds none within its steps, or fails); that the search
among all questions under an automatic strategy ends as `global_run` says;
that the first step of a run of the prover follows that search; that opening
a block adds its atoms to the base and asks one question per following
formula, and fails only where a block cannot be opened or rewriting one of its
atoms can fail; which list of questions each strategy gives; that the step
counter counts the answers taken; and the exact results of the interpreted
functions.
