docsis_monitor
==============

Watches a DOCSIS plant's provisioning traffic on the wire, and says something
when it stops looking like a working plant: when nothing arrives from a CMTS
for longer than it is allowed to be silent, or when requests arrive and go
unanswered.

The library is written in Verus. Its functions carry contracts, and what the
library promises as a whole is proved as public proof functions named `law_*`.

Layout
------

    src/packet.rs     reading a frame: DHCP and TFTP, and which way it went
    src/counters.rs   a sliding window of counts, per flow
    src/relays.rs     one row per gi-address, and how long answers take
    src/alarm.rs      what counts as trouble, and how often it is repeated
    src/adapt.rs      thresholds measured rather than guessed at
    src/ratio.rs      fractions read from decimals and compared exactly
    src/snmp.rs       SNMPv2c traps, in BER
    src/email.rs      the alert, and the SMTP conversation that sends it
    src/config.rs     what to watch, what counts as trouble, who to tell
    src/capture.rs    one run: what is done with a frame, and what is said
    src/logfiles.rs   the log's banner and the PID file's heartbeat
    src/version.rs    the build stamp
    src/clock.rs      local dates
    src/host.rs       the host's name
    src/addr.rs       addresses
    src/json.rs       how a pasted block of thresholds reads, for the proofs
    src/text.rs       decimal numbers, padding and joining

`app/` is the program around it: the command line, the configuration file, the
capture socket, the clock, the log files, and the sockets that traps and mail
leave on.

What is taken on trust
----------------------

Local dates come from `jiff` and the host's name from `nix`; each is one
function with a contract that says what is relied on (`src/clock.rs`,
`src/host.rs`). `String::push` has its specification in `src/text.rs`.
