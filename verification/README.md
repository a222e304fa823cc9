# mac-gate

A DNS resolver for a Mac that routes the addresses of listed domains into a
tunnel before it answers, and the daemon that keeps the tunnels up. Names
outside the lists of the rules in force never touch a tunnel; a listed name
whose rules have no tunnel that carries is refused; pf holds the addresses of
the lists to the tunnels of their rule all the time.

## Layout

- `src/` is the library, verified with Verus: what is answered, routed, held,
  kept and told. It takes and gives plain values: the bytes of a DNS message,
  the text of a file, the output of a program, the time.
- `app/` is the program around it: sockets, files, external programs, tasks.
  It reads the settings as TOML.
- `tests/` runs the library on concrete values.

## Modules of the library

- `text`, `addr`, `ipv6`, `socket`, `paths`, `table`: texts, addresses, and
  an ordered map.
- `lists`, `config`, `sources`: the lists, the settings and where the lists
  take their entries from.
- `dns`, `upstream`: DNS messages, read and written by `hickory-proto`, and the
  exchange with a server.
- `resolver`, `lines`, `links`, `placement`, `holding`, `status`: one query
  and what is written of it; which tunnel a rule takes; where its hosts and
  subnets are routed; what pf holds.
- `route`, `pf`, `sysdns`, `net`, `probe`, `geo`: what is said to the kernel,
  to pf and to the network services, and what they say.
- `tunnel`, `link`, `degraded`: one tunnel, configured, checked and replaced.
- `daemon`, `watch`, `state`, `journal`: the daemon at its start and at every
  step, and what it keeps on disk.
- `install`, `args`, `resolving`: the commands.

Time is counted in nanoseconds. Each module ends with its laws: public proof
functions that state what holds across its functions.
