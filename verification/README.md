# microdns

Micro-daemon that advertises mDNS/DNS-SD services for BigFred OS.

It advertises the services of `$DATA_DIR/etc/microdns.json`, the dcc-bus
programs that loco-server reports and the services that microinit labels,
answers one-shot `.local` queries with the address of the receiving interface,
and recovers by itself from lost interfaces, sockets and suspend.

## Layout

- `src/` is the library, written in Verus. It holds every rule and decision of
  the daemon, with contracts that Verus proves. Nothing in it does I/O.
- `app/` is the program: command line, sockets, files, threads, clocks and JSON.
- `tests/` runs the library on concrete values.

The main loop (`daemon`), the query responder (`responder`), the idle wait
(`wait`) and the interface watcher (`iface_watch`) are state machines. The
program asks each what to do, does it, and reports what came of it.

## What is trusted

A few calls into other crates and the standard library have contracts that
Verus takes on faith. They stand in three places:

- `text.rs`: `String::push`, and the quoted form of a text.
- `bytes.rs`: reading bytes as UTF-8, and the byte order of the machine.
- `mdns.rs`: making and reading `mdns_sd::ServiceInfo`.

Netlink messages and packet information stand in the byte order of the machine.
The functions that read them are proved for either order and take it from
`u16::to_ne_bytes`.
