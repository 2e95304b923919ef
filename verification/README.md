# flea, the rules

The decisions behind Flea's launcher and backend, written in Verus and proved against their contracts:
which GPU the shell presents on and what environment it starts with, what a portal file becomes when
the file chooser is claimed or handed back, how `flea --update` reads pacman, checkupdates, the AUR and
vercmp, what a prefetch list holds, how a listing is ordered, what the LocalSend CLI's screen says,
which names a transfer would collide on and what replacing one may touch, the thumbnail worker's
seccomp filter and Landlock ruleset, the folder-size worker's bookkeeping, and the JSON the line
protocol carries.

- `src/` is the verified library. Each module states its rules as spec functions and proves the code
  that computes them; the `pub proof fn`s are the properties that hold across calls, such as a claim
  and its undo giving the portal file back, a written prefetch list reading back, or the seccomp
  filter answering every system call as intended.
- `tests/` runs the library on concrete inputs.
- `app/` is the process, file, environment and loader work around it.
