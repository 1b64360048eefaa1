# drain

Battery-drain triage for Linux: what is draining the battery right now, and did
the last change make it worse?

`src/` is a verified library. It reads what `/proc`, `/sys` and a handful of
tools say, ranks processes, keeps averages and ledgers, and lays out the screen.
It does no input or output of its own. `app/` is the program around it: it reads
the files, runs the tools, draws on the terminal, and does the floating-point
arithmetic.

| Module      | What it holds                                                        |
|-------------|----------------------------------------------------------------------|
| `sample`    | Samples of `/proc`, the rates between two of them, the battery        |
| `threads`   | The same for the threads of one process                               |
| `screen`    | Keys, sampling, and the text of header, table and footer              |
| `ring`      | The last thirty readings of the battery draw                          |
| `baseline`  | What is normal, saved as text and read back                           |
| `ledger`    | Watt-hours and seconds of CPU by day, and the report on them          |
| `tally`     | Drain while nobody watches: when a line or a sample is due            |
| `orphans`   | Held resources that cost power while CPU and wakes read zero          |
| `strace`    | The syscall histogram of `strace -c`                                  |
| `suite`     | The tools of the suite in one line                                    |
| `clipboard` | Copying by escape sequence, with its base64                           |
| `metric`    | Readings: doubles by their bits, with their exact order               |
| `table`     | Readings by name                                                      |
| `order`     | The stable sort behind every list                                     |
| `text`, `number`, `layout` | Scanning, cutting, reading and padding text            |

A reading is a `Metric`, a double held by its bits. The library compares
readings and tests them against thresholds exactly; sums, ratios, formatting and
parsing are functions that the caller hands in. Where a contract depends on such
a function, it speaks of every mathematical function that the one handed in
agrees with.
