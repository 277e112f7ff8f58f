# bfcli

`bfcli` keeps a directory of shell files (`~/.bfcli/src_files/`) and turns it
into one script that sources each of them safely; a line in the shell's rc file
sources that script in every new shell.

- `src/` is the verified library: reading the extension list from
  `config.json` (`config`), choosing which files to source and in what order
  (`files`), writing the script (`script`), recognising and adding the rc line
  (`rc`), paths (`paths`) and the command line (`cli`), on top of character
  sequence operations (`text`).
- `app/` is the command itself: environment, file system, printing.
- `tests/` exercises the library on concrete values.
