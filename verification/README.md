# mk

A `make` in the manner of GNU make 3.81, whose every decision is stated in a
contract and proved by Verus.

- `src/` is the library: the arguments, the reading of makefiles, variables and
  their expansion, rules, the dependency graph and the running of recipes.
- `app/` is the program around it.
- `tests/` runs the library on concrete makefiles.

## How the library meets the world

The library reads no file and starts no command. A computation that needs
something from outside reads it from a `Transcript`, the answers given so far, and
where these run out it stops with a `Query`. The program answers the query, adds the
answer to the transcript and starts the computation again. Since the result is a
function of the arguments and the answers alone, the contracts say exactly what is
asked, in which order, and what follows from each answer.

## Layout of `src/`

- `text`, `search`, `number`, `order`, `names`, `paths`: strings, decimal numbers,
  the order of names, maps from names, and paths.
- `error`: errors, and the lines in which they are reported.
- `world`: queries, answers and transcripts.
- `args`: the command line.
- `makefile`: `reader` (logical lines), `lines` (what kind of line it is), `assign`,
  `conditions`, `rules` and `parse` (reading a makefile), `var`, `expand`,
  `functions`, `outside` (variables and `$(…)`), `rule`, `implicit`, `vpath`, `graph`
  (targets and what they need), `exec` (building), `load` and `database`.
- `run`: a whole run, from the arguments to the exit status.

Three modules hold only proofs of what holds throughout:

- `steady`: answers that come later never change what was computed with those
  before, so a computation may be started again with each answer; and reading
  makefiles changes nothing outside.
- `makefile::lasting`: what reading a makefile never takes back, that the command
  line wins over every makefile, and that none of them changes `CURDIR`.
- `makefile::restraint`: what a build leaves alone under `-n`, `-q` and `-t`, and
  what its outcome can be.

The other laws stand next to the functions that they speak of.
