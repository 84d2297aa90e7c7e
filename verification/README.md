# Sundial

Sundial edits the `settings.json` of a Project Sunrise installation: characters, their
equipment and inventories, profile items, and the raw JSON itself.

- `src/` is the library, verified with Verus: the JSON model and its text layout, the item and
  character rules, every edit with its refusal cases, SOID allocation, the inventory pages'
  buckets and pickers, and the raw JSON editor's folding and search.
- `app/` is a small command-line front end: `sundial --check --install <folder>` finds the
  installation's settings file, checks it and prints what a save would write.
- `tests/` holds the tests, run against the compiled library.
