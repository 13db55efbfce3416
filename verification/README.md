# memo_vault

A memo vault whose memos are classified into categories by an in-browser
model, searched by keyword or by meaning, grouped by category and summed by
the amounts they mention.

- `src/` is the library, verified with Verus: text handling (`text`),
  highlighting of search matches (`highlight`), number and date rendering
  (`format`), the memo list (`memos`), grouping (`groups`), category
  management (`categories`), stored category lists (`storage`), the worker's
  replies (`worker`), what the page shows (`display`) and the page state with
  its transitions (`store`).
- `app/` is the Leptos page around it: browser storage, the classifier web
  worker, file import and export, and the view.
- `tests/` runs the library on concrete values.
