# oxc_class_names

The class-name handling of a JavaScript/TypeScript formatter, verified with
Verus: Tailwind CSS class sorting (`sort_tailwindcss`) and the wrapping of
long class strings to the print width (`wrap_class_names`).

- `src/class_context.rs`, `src/context.rs`: the class context stack and the
  formatting context that collects class strings.
- `src/tailwindcss/`: which attributes, calls and positions hold classes,
  whitespace rules, and the writers of class string literals, template
  literals and template elements.
- `src/wrap_class_names/`, `src/wrap_expand.rs`: the expansion of wrapping
  class markers into fills once the classes are sorted, for two IRs.
- `src/formatter.rs`: sorting the collected classes and finishing a run.
- `src/opening_element.rs`, `src/call_expression.rs`: the JSX opening element
  layout and the class-context bookkeeping around calls.
- `app/`: builds what the library reads of the syntax tree from oxc's nodes.
