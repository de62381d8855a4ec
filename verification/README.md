# w1

A small text-processing macro language, verified with Verus.

```text
@macro card($title, $content) {{
<div class="card"><h2>$title</h2>$content</div>
}}

@card({{Welcome}}, {{<p>Hello</p>}})
```

Outside `{{ ... }}` blocks whitespace only separates tokens; inside a block
everything is text. `@name(...)` invokes a macro defined earlier with
`@macro name($p, ...) {{ template }}`; `@call name(...)` is the same
invocation. In the template, each parameter stands for the argument block
at its position.

`parse` and `eval` ask for input that parses and evaluates; `try_parse`,
`try_eval` and `check` say why input does not.

Layout:

- `src/text.rs`: character positions, UTF-8 byte offsets and slicing, the
  whitespace class (the Unicode `White_Space` set, tested code point by
  code point) and the alphanumeric class taken from `char`.
- `src/token.rs`: the tokenizer, its specification over the characters of
  the source, and the laws that tokens are read verbatim from the source,
  spell it out with only whitespace left out, and keep a block whole.
- `src/ast.rs`: the syntax tree, the grammar as spec functions over token
  views, and the recursive-descent parser proved against it.
- `src/eval.rs`: the scoped evaluator, its specification with a bound on
  nesting, and laws on definitions, invocations and parameters.
- `src/lib.rs`: `eval`, from source text to output.
- `app/main.rs`: the command-line program (reading, printing, messages).
