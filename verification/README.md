# wit_resolve

Resolution of WIT packages: a `Resolve` holds packages whose references to each other are linked,
and whose worlds list everything that they import and export. The library is written in Verus, and
what each function does is stated in its contract and proved.

## What it does

- `Resolve::push` inserts a package: its references to other packages are linked, its items are
  renumbered, and its worlds are elaborated.
- `Resolve::merge` merges one resolve into another and returns a `Remap` from old to new ids.
- `Resolve::merge_worlds` merges one world into another.
- `Resolve::select_world`, `Resolve::url_of` and `Resolve::all_bits_valid` answer questions.
- `Loader` says which packages to parse next, and `Resolve::push_all` pushes what was loaded in an
  order in which every package follows those that it depends on.

## How it is laid out

- `types`, `package`, `resolve`, `remap` and `error` hold the data and its views.
- `arena`, `names` and `numbers` hold what is trusted of the collections of `id-arena` and
  `indexmap`; `locate` and `matching` hold what is trusted of `url` and of formatting. `host` says
  which texts are handed to the parser of `url`.
- `link`, `moving`, `elaborate` and `append` are the steps of a push; `matching` and `merge` those
  of a merge; `order`, `load` and `loaded` those of loading.
- `closure` states what holds of every elaborated world, and `visits` what taking up an interface
  does. `validity`, `descent` and `readiness` state what pushing keeps and what it takes to push.
  `merge_laws`, `correspondence`, `held`, `lineage` and `unit` state what merging keeps, and
  `counterparts` and `again` what merging the same resolve again does. `sorting` states that
  interfaces stay in order. `parents` says what it means that every item can be traced back to its
  package.
- A resolve is `usable` as long as what it lists is there, and `valid` if every item can also be
  followed to what it belongs to. A push that fails on the way leaves a resolve usable, and one that
  succeeds leaves a valid resolve valid.
- What a function requires, and could find not to hold as it runs, it also asserts: that no item is
  matched or listed twice, that a world asks for an interface once, that what belongs to other
  packages comes first. A caller that is not verified gets a panic.
- `app/` reads directories and reports errors. Nothing in it is verified.
