# hf-s3ream

Stream S3 prefixes into HuggingFace Buckets. Bytes flow from S3 through memory
into the content-addressed upload pipeline; nothing is staged on disk.

- `src/` is the library: what is decided on the way, with contracts that Verus
  proves. Listing and filtering, cutting a listing into ranges, the life of the
  copier jobs, the settlement of a batch commit, retries, the check of the
  destination after a copy, and the watchdog over a running copy.
- `app/` is the program around it: the command line, the network, the clock.
- `tests/` runs the library on concrete values.

## How the parts fit

A copy lists the source once (`listing`, `keys`, `globs`), reads each object in
parts (`sync`), hands it to the upload pipeline (`cas_uploader`) and commits a
session of files with one batch (`bucket_client`, `settlement`). A planner cuts
the same listing into contiguous ranges (`planner`, `partition`) and starts one
job per range (`jobs_client`). Afterwards the destination is listed and compared
with the plan (`bucket_tree`, `verify`, `census`, `report`, `rerun`, `clean_copy`).
`progress` and `ledger` count what moves and name what stands still. `http` holds the rules
for trying again, `text`, `keymap`, `byte_order`, `urls` and `dest` what the
others stand on.

## What is proved of the whole

- The ranges of a plan split the listing: no gap, no overlap, every key in one
  range, and what the ranges count adds up to what was kept. A range is closed
  by the object that fills it.
- A batch is reported done only when every operation was confirmed, except that
  a first response whose body cannot be read is taken at its status.
- The check maps a destination path back to the key it came from. It counts
  what is listed, in whatever order. A faithful copy raises no suspicion, and a
  lost file does.
- Retries are bounded, and a batch that is done covers all its operations.
- Secrets never reach a copier's command line.
- The command printed for a failed range reads back, in a shell, as the
  arguments it was made from.
