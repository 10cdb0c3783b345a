# Network Load Monitor V2

Shows which protocols load a substation network: GOOSE, Sampled Values and
their routable forms, PTP, MMS and the other protocols of that world, row by
row, live from an interface or from a capture file.

`src/` is the library, written in Verus. Its functions have contracts that are
proved, but for the outside calls named at the end, and the laws that span
functions are proved beside them.

| Modules | What they hold |
| --- | --- |
| `parse`, `ber`, `classify` | protocols, identifiers, and the classifier from bytes to frames |
| `filter`, `sets` | the capture filter, and sets with one listing each |
| `counts`, `stats` | counters per row, the rolling window, batches |
| `pcap`, `load` | the pcap and pcapng readers, and loading a whole file |
| `order`, `rows`, `report` | the order of rows, and the report with its display filter |
| `table`, `fmt`, `text` | the terminal panel and how values read |
| `iface`, `capture`, `cli` | interfaces, the capture loop's decisions, command-line rules |
| `filter_popup`, `export`, `monitor` | the desktop window's state, CSV export, status texts |

`pcap_laws`, `report_laws`, `table_laws` and `capture_laws` hold the laws of
the modules they are named after.

`app/` is the program around it: arguments, sockets, files, threads, the
terminal and the window, and the figures that are not whole numbers. Started
under a name that ends in `-gui` it opens the window, else it runs in the
terminal.

What the proofs rest on beside Verus: four outside functions, whose contracts
stand in `text` and `table`, each with what it claims of the function.
