# alpha

A verified core for Alpha, a language of polyhedral equations: semantic analysis of a program, and
generation of C and of HUGR dataflow from its lowered form.

The library never computes with polyhedral sets itself. Domains, contexts, dependences, lane maps
and specialized programs are plain terms; the checks ask questions about them and decide by the
answers. Every decision, every diagnostic and every line of generated text has a contract.
Evaluating the terms and answering the questions is left to the code around the library.

## Layout

`src/`, the verified library:

- `syntax`, `diagnostic`, `ty`, `multiplicity`, `operation`: programs as the parser delivers them,
  and what can be said about them.
- `scan`, `context_names`, `text`: reading and writing text.
- `polyhedral`, `value`, `function`, `resolve`, `domain`: what the notation for sets, relations and
  functions stands for, where an expression is defined and where its value is needed. `meaning`
  says what that comes to, point by point, and `failure` where it cannot be had and why.
- `uniqueness`, `completeness`, `use_outputs`, `analyze`, `program`: the checks. `questions` writes
  down the sets they ask about; `check_meaning` says what a clean report comes to, point by point.
- `linearity`, `linear_calls`, `linear_reads`, `linear_checks`: the checks of linear values and of
  calls of operations. `linear_questions` writes down what they ask about; `linear_meaning` says what
  a clean report comes to, point by point.
- `ir`, `stmt`, `expr`, `layout`, `simplec`, `driver`, `writec`, `scheduledc`, `wrapper`,
  `agreement`, `emission`, `macros`: C from lowered systems, on demand or in the order of a schedule.
- `relation`: sets of instances and relations between them as terms, and what they stand for.
- `schedule`, `legality`, `scheduled_ir`, `describe`, `specialize`, `realize`: schedules, the
  dependences they have to respect, and the lanes that resources are held in. `realize_meaning` says
  what holds of every point of a resource.
- `dataflow`, `hugr_builder`, `hugr_lowering`, `hugr_primitives`: dataflow regions and what they
  compute, the HUGR builders, index arithmetic as HUGR dataflow, and quantum primitives.
- `index_meaning`: the value that an index keeps when it is lowered or printed.
- `binding`: messages for a caller in another language.

`app/` evaluates the terms with isl, reads the parser's tree and the lowered form, and holds the
Python module. `tests/` runs the library on concrete values.
