# wintermute-lucid

`wm-lucid` is the flight recorder of the agorabus bus, and the tools that read
the recording back. It keeps every event of the `wm.` topics in a log that
rotates by size and is keyed by turn, and turns that log into an answer to "what
just happened": a timeline with latencies, what the brain did, a live monitor,
and a narration in plain words.

The logic is a library that is proved correct with [Verus](https://github.com/verus-lang/verus).
The program around it does the reading, writing and drawing.

## Layout

- `src/` is the library.
  - `record`, `payload`, `fields`: the record of one event, JSON values, and the
    line that holds a record. A line that was written reads back as it was, where
    its payload is nested at most 126 deep and holds no float that `serde_json`
    reads back changed.
  - `store`, `segment`, `index`, `disk`: how records are kept. The store names
    the next task, the caller does it on the files. `disk` proves what comes of
    that: the store and its files agree after every record, no segment is ever
    cut short, the number and the size of segments are bounded, a restart gives
    the store back, and every record can be found under its key.
  - `trace`, `mind`, `explain`, `report`: a turn as a timeline, what the brain
    did in it, the turn in plain words, and what the commands print.
  - `watch`: the pipeline as it runs.
  - `text`, `order`, `seconds`, `clock`: what these share.
- `tests/` run the library.
- `app/` is the program: arguments, files, the bus and the terminal.

## What is trusted

Verus takes the contracts of a few functions outside the library on trust. Each
is declared where it is used, with a comment that says what is claimed:

- `serde_json` quotes texts, reads JSON texts and gives a number as a float
  (`payload`).
- std appends a character to a `String` and compares texts (`text`), writes a
  text with `Debug` (`explain`), formats a float with two places (`payload`) and
  reads the clock (`clock`).

## Commands

```sh
wm-lucid record                  # keep every event (the default)
wm-lucid tap --topic wm.brain.   # stream events, one JSON object to a line
wm-lucid trace <turn_id>         # a timeline; --json, --full for raw payloads
wm-lucid last [N]                # the latest turn, or N one-line summaries
wm-lucid mind <turn_id>          # what the brain did; --json
wm-lucid why                     # the same for the latest turn
wm-lucid watch                   # live; --plain for one line per event
wm-lucid explain <turn_id>       # in plain words; --last, --voice, --persona, --json
```

`trace` and `last` exit with 2 where a turn that they show was not completed.
