# finscript

A small language for financial formulas: a lexer, a parser, an interpreter, and
a tracer that turns a program into a graph of its assignments and writes it out
again as a program whose literals have become parameters.

```text
company = t<ACME>;
price = company.price<last>;
years = 5;
growth = 0.08;
value = dcf(100, growth, 0.10, 0.02, years);
print("value: ", value, "\n");
```

The library under `src/` is written in Verus: what every function returns or
changes is stated in its contract and proved. `app/` is the command line
program around it: it reads files, runs the generator script, prints, and
brings the arithmetic of doubles.

## Layout

| modules | what they hold |
| --- | --- |
| `text`, `number`, `names`, `token`, `ast` | text, doubles as bits, maps by name, tokens, syntax trees |
| `lexer`, `grammar`, `parser` | from text to trees |
| `value`, `json`, `stdlib`, `purity` | values, JSON documents, prewritten functions, what functions may do |
| `machine`, `interpreter` | the step-by-step interpreter: what a step is, and the code for it |
| `graph`, `trace`, `dag`, `render` | the graph of a program, the tracer, and how both are written |
| `semantics`, `adequacy` | what a program means, and that the interpreter does just that |
| `soundness`, `effects`, `machine_laws` | what calls, blocks and pure code leave as it was |
| `lexer_laws`, `parser_laws` | what is skipped, which strings a literal stands for, and that texts and programs can be put one after the other |
| `endings` | every function that is parsed ends with a `return` |
| `dag_laws`, `formulas` | what the graph says is what runs compute |
| `spelling`, `reading` | when what is written reads back |
| `rereading`, `replay`, `sources` | when what is saved does what the program does |

## What is saved

`render` writes a program back with the parentheses that its trees need, and
its strings with the escapes that the lexer knows. In a `.fic` file a literal
becomes a parameter, and a value or formula that the graph knows takes the place
of what it came from. A value for which there is no literal (an infinity, a NaN
or the negative zero) does not: the statement stays as it was.

That such a file reads back, and that what is read runs as the program runs, is
proved for every source text that parses (`sources`), under these conditions,
which the laws state: numbers that are written can be read, as those of `app/`
can; the numbers of the text are finite; and, for running alike, no name that is
assigned is that of a ticker that is fetched, what is replaced does nothing but
compute, and every parameter is given the value that it had.

## Numbers

Verified code keeps a number as the 64 bits of a double. It converts, orders,
rounds and recognises numbers by itself; for `+ - * / ^`, for reading a
number and for writing one it asks an implementation of `number::Numbers`.
Contracts say what comes out for every implementation that always answers a
question in the same way.

## Running a program

The interpreter does not touch the outside world. `Interpreter::run` makes it
ready, `Interpreter::step` takes one step, and where a step needs something
(to print, to have a directory, a script run or a file read) it asks for it and
takes the reply with the next step.
