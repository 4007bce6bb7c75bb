# fastgmad

Extracts Garry's Mod addons from `.gma` archives.

- `src/` is the library, verified with Verus. It reads nothing and writes nothing: it parses the
  head of an archive, decides where each entry goes, and runs the state machines that say what is
  to be read or written next and what an outcome means.
- `app/` is the program around it: arguments, files, threads and messages.
- `tests/` runs the library against a disk in memory.

An entry goes to its own name below the output folder, or, if that name is not UTF-8, is empty,
leads out of the folder, is a Windows device name (on Windows), is taken or stands for the place of
such an entry, to `badnames/<number>.unk`. A file that cannot be written is counted and left out; an
archive that is cut short is an error, whether or not its files can be written.
