# arquitecturas_so

Two simulations of operating system architectures, as a verified library
(`src/`) and a console program around it (`app/`).

* **Layered system** (in the style of THE): `capa0_hardware` … `capa4_usuario`.
  Each layer only calls the one right below it; `traza` counts and keeps every
  crossing. The system call layer turns internal errors into codes
  (`ENOMEM`, `ESRCH`, `EIO`); the process layer schedules with Round Robin.
* **Containers** (in the style of Docker): `kernel` (one shared kernel with
  namespaces, control groups, an out-of-memory killer and a bridge),
  `imagen` (read-only layers kept once and shared), `contenedor` (overlay
  file system with copy-on-write) and `motor` (the engine that builds each
  container out of what the kernel offers).

Helpers: `claves` (lists keyed by text seen as maps) and `texto`
(numerals, the byte order of texts, cutting texts).

Every operation has a contract over a mathematical model of its state, and
the laws of each part (what every operation keeps, what a read gives back
of a write, what a panic of the kernel does) are public proof functions
named `ley_*`. `app/` prints the scenes of both demos: `app capas`,
`app contenedores`, or both; `--pausa` stops between scenes.
