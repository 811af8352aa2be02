//! The container engine, the equivalent of dockerd.
//!
//! It is not part of the kernel: it is a user program that asks the shared
//! kernel for namespaces, control groups, mounts and processes, and builds
//! each container out of them. Each operation gives back what happened, for
//! a command line to show.
use vstd::prelude::*;

use crate::claves::{cuenta, lema_mapa_de, mapa_de, posicion, vista_lista};
use crate::contenedor::{
    diff_v, en_imagen, lema_lectura_posible, leer_v, tipo_cambio, Contenedor, ContenedorV, Estado, Namespaces,
};
use crate::imagen::{
    bajar_capas, catalogo_v, digest_valido, no_encontrada, ocurrencias, prestar, tabla_uso, usos, vista_capas,
    vista_informe, vista_uso, EntradaV, ImagenV, Registro,
};
use crate::kernel::{
    buscar_ns, buscar_pid, clone_admisible, clone_v, conectar_v, conserva, crear_cgroup_v, enviar_v, ip_de,
    lema_conserva_clone, lema_conserva_reservar, lema_conserva_transitiva, lema_conserva_unshare,
    ley_host_ve_todo, memoria_usada, ordenada, reserva_admisible, reservar_v, syscall_v, tras_syscall,
    unshare_v, valido, vista_opcion, vista_procs, vistos, Cgroup, ErrorKernel, ErrorKernelV, Kernel, KernelV,
    NsId, PidHost, ProcHostV, ProcesoHost, TipoNs,
};
use crate::texto::{agregar, bytes_de, empieza_con, es_hex, escribir_hex, hex, lema_ascii_corte, lema_hex_ascii, partir};
use vstd::utf8::{encode_utf8, is_ascii_chars, is_ascii_chars_concat};

verus! {

/// Limits asked for a container: memory in MB and CPU share in thousandths
/// of a CPU.
#[derive(Clone, Copy, Debug)]
pub struct Opciones {
    pub memoria_mb: u32,
    pub cpus_milesimas: u32,
}

/// Outcome of asking memory for the main process of a container.
#[derive(Debug)]
pub enum Memoria {
    /// Granted: use and limit of its control group after it.
    Concedida { uso_mem_mb: u32, limite_mem_mb: u32 },
    /// The out-of-memory killer acted: the container is down (exit code
    /// 137) and off the bridge.
    Matado { pid: PidHost, pedido: u32, limite: u32, uso: u32, muertos: Vec<PidHost> },
}

pub enum MemoriaV {
    Concedida { uso_mem_mb: u32, limite_mem_mb: u32 },
    Matado { pid: PidHost, pedido: u32, limite: u32, uso: u32, muertos: Seq<PidHost> },
}

impl View for Memoria {
    type V = MemoriaV;

    open spec fn view(&self) -> MemoriaV {
        match self {
            Memoria::Concedida { uso_mem_mb, limite_mem_mb } => MemoriaV::Concedida {
                uso_mem_mb: *uso_mem_mb,
                limite_mem_mb: *limite_mem_mb,
            },
            Memoria::Matado { pid, pedido, limite, uso, muertos } => MemoriaV::Matado {
                pid: *pid,
                pedido: *pedido,
                limite: *limite,
                uso: *uso,
                muertos: muertos@,
            },
        }
    }
}

/// What the engine set up for a container before starting its main
/// process: id, namespaces, control group, address on the bridge, number of
/// layers mounted read only and the program to start.
#[derive(Debug)]
pub struct Montaje {
    pub id: String,
    /// The first 12 bytes of the id.
    pub hostname: String,
    pub ns: Namespaces,
    pub cgroup: String,
    pub ip: String,
    pub capas: usize,
    pub proceso: String,
}

/// One step of the FNV-1a hash.
pub open spec fn paso_fnv(h: u64, b: u8) -> u64 {
    vstd::wrapping::u64_specs::wrapping_mul(h ^ (b as u64), 0x100000001b3u64)
}

/// FNV-1a hash of `bs` from the state `h`.
pub open spec fn fnv(h: u64, bs: Seq<u8>) -> u64
    decreases bs.len(),
{
    if bs.len() == 0 {
        h
    } else {
        paso_fnv(fnv(h, bs.drop_last()), bs.last())
    }
}

/// Little-endian bytes of a round number, which is below 256.
pub open spec fn bytes_ronda(r: u64) -> Seq<u8> {
    seq![r as u8, 0u8, 0u8, 0u8, 0u8, 0u8, 0u8, 0u8]
}

/// Hash of round `r` for a container called `nombre`.
pub open spec fn hash_ronda(nombre: Seq<char>, r: u64) -> u64 {
    fnv(0xcbf29ce484222325u64 ^ r, encode_utf8(nombre) + bytes_ronda(r))
}

/// The hexadecimal digits of the first `n` rounds.
pub open spec fn id_parcial(nombre: Seq<char>, n: u64) -> Seq<char>
    decreases n,
{
    if n == 0 {
        Seq::empty()
    } else {
        id_parcial(nombre, (n - 1) as u64) + hex(hash_ronda(nombre, (n - 1) as u64) as nat, 16)
    }
}

/// Id of a container, 64 hexadecimal digits (as Docker's), derived from
/// its name.
pub open spec fn id_de(nombre: Seq<char>) -> Seq<char> {
    id_parcial(nombre, 4)
}

/// The control group of a container: `/docker/` and the first 12 bytes of
/// its id.
pub open spec fn cgroup_de(id: Seq<char>) -> Seq<char> {
    "/docker/"@ + bytes_de(id, 0, 12)
}

/// The kernel after the engine sets up a container: four namespaces (pid,
/// mount, network, hostname), a control group, an address on the bridge.
/// Gives the kernel, the namespaces and the address.
pub open spec fn montaje_v(k0: KernelV, cg: Seq<char>, op: Opciones) -> (KernelV, Namespaces, Seq<char>) {
    let d = "dockerd"@;
    let k1 = unshare_v(k0, d, TipoNs::Pid).0;
    let k2 = unshare_v(k1, d, TipoNs::Mnt).0;
    let k3 = unshare_v(k2, d, TipoNs::Net).0;
    let k4 = unshare_v(k3, d, TipoNs::Uts).0;
    let ns = Namespaces { pid: k0.sig_ns, mnt: k1.sig_ns, net: k2.sig_ns, uts: k3.sig_ns };
    let k5 = crear_cgroup_v(k4, d, cg, op.memoria_mb, op.cpus_milesimas).0;
    let k6 = conectar_v(k5, d, ns.net).0;
    (k6, ns, ip_de(k5.sig_ip))
}

/// Whether setting up and starting a container keeps every counter of the
/// kernel in range.
pub open spec fn run_admisible(k0: KernelV) -> bool {
    !k0.panico ==> {
        &&& cuenta(k0.sys, "dockerd"@) + 8 <= u64::MAX
        &&& k0.sig_ns + 4 <= u64::MAX
        &&& k0.sig_ip < u8::MAX
        &&& k0.sig_pid < u32::MAX
    }
}

/// Outcome of a request from one container to another.
#[derive(Debug)]
pub enum Conexion {
    /// The engine knows no running container by that name.
    SinResolver,
    /// The address and port of the server, the network namespaces the
    /// packet went between (origin, destination) and the answer.
    Respuesta { ip: String, puerto: u16, redes: (NsId, NsId), texto: String },
}

pub enum ConexionV {
    SinResolver,
    Respuesta { ip: Seq<char>, puerto: u16, redes: (NsId, NsId), texto: Seq<char> },
}

impl View for Conexion {
    type V = ConexionV;

    open spec fn view(&self) -> ConexionV {
        match self {
            Conexion::SinResolver => ConexionV::SinResolver,
            Conexion::Respuesta { ip, puerto, redes, texto } => ConexionV::Respuesta {
                ip: ip@,
                puerto: *puerto,
                redes: *redes,
                texto: texto@,
            },
        }
    }
}

/// What a database server answers.
pub open spec fn respuesta_postgres() -> Seq<char> {
    " id | usuario\n    ----+--------\n     1  | henry\n    (1 fila)"@
}

/// The page a web server serves.
pub open spec fn pagina_nginx() -> Seq<char> {
    "/usr/share/nginx/html/index.html"@
}

/// The answer of the server `destino`: a database answers the query; a
/// web server serves its page as the first container of that name reads
/// it.
pub open spec fn respuesta_v(cs: Seq<ContenedorV>, destino: Seq<char>, imagen: Seq<char>) -> Seq<char> {
    if "postgres"@.is_prefix_of(imagen) {
        respuesta_postgres()
    } else {
        let c = cs[primero(cs, destino)->0];
        match leer_v(mapa_de(c.rw), c.capas, pagina_nginx()) {
            Some((t, _)) => "HTTP/1.1 200 OK\n    "@ + t,
            None => "HTTP/1.1 404"@,
        }
    }
}

/// A request from `origen` to `destino`: the engine resolves the name to
/// the first running container so called; the packet goes over the bridge
/// of the kernel and the server serves it.
pub open spec fn conexion_v(k0: KernelV, cs: Seq<ContenedorV>, origen: Seq<char>, destino: Seq<char>) -> (
    KernelV,
    Result<ConexionV, ErrorKernelV>,
) {
    let ip_o = cs[primero(cs, origen)->0].ip;
    match primero_activo(cs, destino) {
        None => {
            let (k1, r1) = syscall_v(k0, origen);
            (
                k1,
                match r1 {
                    Ok(_) => Ok(ConexionV::SinResolver),
                    Err(e) => Err(e),
                },
            )
        },
        Some(d) => {
            let c = cs[d];
            let (k1, r1) = enviar_v(k0, origen, ip_o, c.ip, c.puerto);
            match r1 {
                Err(e) => (k1, Err(e)),
                Ok(redes) => {
                    let (k2, r2) = syscall_v(k1, destino);
                    match r2 {
                        Err(e) => (k2, Err(e)),
                        Ok(_) => (
                            k2,
                            Ok(
                                ConexionV::Respuesta {
                                    ip: c.ip,
                                    puerto: c.puerto,
                                    redes,
                                    texto: respuesta_v(cs, destino, c.imagen),
                                },
                            ),
                        ),
                    }
                },
            }
        },
    }
}

/// Whether a request from `origen` to `destino` keeps the counters of the
/// kernel in range and finds the origin on the bridge when the destination
/// is there.
pub open spec fn conexion_admisible(k0: KernelV, cs: Seq<ContenedorV>, origen: Seq<char>, destino: Seq<char>) -> bool {
    !k0.panico ==> {
        &&& cuenta(k0.sys, origen) < u64::MAX
        &&& primero_activo(cs, destino) matches Some(d) ==> {
            &&& k0.red.dom().contains(cs[d].ip) ==> {
                &&& k0.red.dom().contains(cs[primero(cs, origen)->0].ip)
                &&& k0.paquetes + 2 <= u64::MAX
            }
            &&& cuenta(tras_syscall(k0, origen).sys, destino) < u64::MAX
        }
    }
}

/// What a kernel panic did to a container.
#[derive(Clone, Copy, PartialEq, Eq, Debug, Structural)]
pub enum Efecto {
    YaDetenido,
    SigueVivo,
    Caido,
}

/// Figures of the shared kernel.
#[derive(Debug)]
pub struct Resumen {
    pub mem_usada_mb: u32,
    pub mem_total_mb: u32,
    pub syscalls_total: u64,
    pub contenedores: usize,
    pub namespaces: usize,
    pub cgroups: usize,
    pub paquetes: u64,
    /// Calls served per caller, in the order of the callers' names.
    pub syscalls: Vec<(String, u64)>,
}

pub struct Motor {
    kernel: Kernel,
    registro: Registro,
    contenedores: Vec<Contenedor>,
}

pub open spec fn vista_conts(s: Seq<Contenedor>) -> Seq<ContenedorV> {
    s.map_values(|c: Contenedor| c@)
}

/// A kernel outcome with its error as a value.
pub open spec fn res_id<T>(r: Result<T, ErrorKernel>) -> Result<T, ErrorKernelV> {
    match r {
        Ok(x) => Ok(x),
        Err(e) => Err(e@),
    }
}

/// `i` is the first container called `nombre`.
pub open spec fn es_primero(cs: Seq<ContenedorV>, nombre: Seq<char>, i: int) -> bool {
    &&& 0 <= i < cs.len()
    &&& cs[i].nombre == nombre
    &&& forall|j: int| 0 <= j < i ==> cs[j].nombre != nombre
}

/// The first container called `nombre`, if there is one.
pub open spec fn primero(cs: Seq<ContenedorV>, nombre: Seq<char>) -> Option<int> {
    if exists|i: int| es_primero(cs, nombre, i) {
        Some(choose|i: int| es_primero(cs, nombre, i))
    } else {
        None
    }
}

/// `i` is the first container whose pid namespace is `ns`.
pub open spec fn es_primero_ns(cs: Seq<ContenedorV>, ns: NsId, i: int) -> bool {
    &&& 0 <= i < cs.len()
    &&& cs[i].ns.pid == ns
    &&& forall|j: int| 0 <= j < i ==> cs[j].ns.pid != ns
}

pub open spec fn primero_ns(cs: Seq<ContenedorV>, ns: NsId) -> Option<int> {
    if exists|i: int| es_primero_ns(cs, ns, i) {
        Some(choose|i: int| es_primero_ns(cs, ns, i))
    } else {
        None
    }
}

/// `i` is the first running container called `nombre`.
pub open spec fn es_primero_activo(cs: Seq<ContenedorV>, nombre: Seq<char>, i: int) -> bool {
    &&& 0 <= i < cs.len()
    &&& cs[i].nombre == nombre && cs[i].estado == Estado::Corriendo
    &&& forall|j: int| 0 <= j < i ==> !(cs[j].nombre == nombre && cs[j].estado == Estado::Corriendo)
}

pub open spec fn primero_activo(cs: Seq<ContenedorV>, nombre: Seq<char>) -> Option<int> {
    if exists|i: int| es_primero_activo(cs, nombre, i) {
        Some(choose|i: int| es_primero_activo(cs, nombre, i))
    } else {
        None
    }
}

/// Name shown for a pid namespace: the host for the root one, the first
/// container that owns it otherwise, "?" when none does.
pub open spec fn nombre_de_ns_v(cs: Seq<ContenedorV>, ns: Option<NsId>) -> Seq<char> {
    match ns {
        None => "(host)"@,
        Some(n) => match primero_ns(cs, n) {
            Some(i) => cs[i].nombre,
            None => "?"@,
        },
    }
}

/// What the engine needs of a container to work on it: its control group
/// and pid namespace exist, its hostname is the start of its id, its
/// writable layer is in order and its layers have valid digests.
pub open spec fn contenedor_valido(k: KernelV, c: ContenedorV) -> bool {
    &&& k.cgs.dom().contains(c.cgroup)
    &&& buscar_ns(k.nss, c.ns.pid) is Some
    &&& c.hostname == bytes_de(c.id, 0, 12)
    &&& ordenada(c.rw)
    &&& forall|j: int| 0 <= j < c.capas.len() ==> digest_valido(#[trigger] c.capas[j].digest)
}

pub open spec fn contenedores_validos(k: KernelV, cs: Seq<ContenedorV>) -> bool {
    forall|i: int| 0 <= i < cs.len() ==> contenedor_valido(k, #[trigger] cs[i])
}

proof fn lema_validos_conserva(k0: KernelV, k1: KernelV, cs: Seq<ContenedorV>)
    requires
        contenedores_validos(k0, cs),
        conserva(k0, k1),
    ensures
        contenedores_validos(k1, cs),
{
    assert forall|i: int| 0 <= i < cs.len() implies contenedor_valido(k1, #[trigger] cs[i]) by {
        assert(contenedor_valido(k0, cs[i]));
        assert(k1.cgs.dom().contains(cs[i].cgroup));
        assert(buscar_ns(k1.nss, cs[i].ns.pid) is Some);
    }
}

/// The containers after the writable layer of the `i`-th now stands for
/// the map `m`.
pub open spec fn con_rw(cs0: Seq<ContenedorV>, cs1: Seq<ContenedorV>, i: int, m: Map<Seq<char>, Option<Seq<char>>>) -> bool {
    &&& cs1.len() == cs0.len()
    &&& forall|j: int| 0 <= j < cs0.len() && j != i ==> #[trigger] cs1[j] == cs0[j]
    &&& cs1[i] == (ContenedorV { rw: cs1[i].rw, ..cs0[i] })
    &&& mapa_de(cs1[i].rw) == m
}

/// A row of `docker ps -a`: short id, image, state, address while running,
/// name.
pub open spec fn fila_ps(c: ContenedorV) -> (Seq<char>, Seq<char>, Estado, Option<Seq<char>>, Seq<char>) {
    (
        bytes_de(c.id, 0, 12),
        c.imagen,
        c.estado,
        if c.estado == Estado::Corriendo {
            Some(c.ip)
        } else {
            None
        },
        c.nombre,
    )
}

pub open spec fn vista_fila_ps(f: (String, String, Estado, Option<String>, String)) -> (
    Seq<char>,
    Seq<char>,
    Estado,
    Option<Seq<char>>,
    Seq<char>,
) {
    (f.0@, f.1@, f.2, vista_opcion(f.3), f.4@)
}

/// Each row of `docker ps -a` describes its own container: the first 12
/// bytes of its id, the image reference it was run from, its state,
/// its address exactly while it runs, and its name.
pub proof fn ley_ps_columnas(cs: Seq<ContenedorV>)
    ensures
        cs.map_values(|c: ContenedorV| fila_ps(c)).len() == cs.len(),
        forall|i: int|
            #![trigger cs[i]]
            0 <= i < cs.len() ==> {
                let f = cs.map_values(|c: ContenedorV| fila_ps(c))[i];
                &&& f.0 == bytes_de(cs[i].id, 0, 12)
                &&& f.1 == cs[i].imagen
                &&& f.2 == cs[i].estado
                &&& (f.3 is Some <==> cs[i].estado == Estado::Corriendo)
                &&& (f.3 matches Some(ip) ==> ip == cs[i].ip)
                &&& f.4 == cs[i].nombre
            },
{
}

/// A row of `docker stats`: name, memory used and limit of its control
/// group, CPU share in thousandths, processes, calls to the kernel.
pub open spec fn fila_stats(k: KernelV, c: ContenedorV) -> (Seq<char>, u32, u32, u32, nat, nat) {
    let g = k.cgs[c.cgroup];
    (c.nombre, g.uso_mem_mb, g.limite_mem_mb, g.cpus_milesimas, vistos(k.procs, Some(c.ns.pid)).len(), cuenta(k.sys, c.nombre))
}

/// `docker stats`: one row per running container, in order.
pub open spec fn stats_v(k: KernelV, cs: Seq<ContenedorV>) -> Seq<(Seq<char>, u32, u32, u32, nat, nat)>
    decreases cs.len(),
{
    if cs.len() == 0 {
        Seq::empty()
    } else if cs.last().estado == Estado::Corriendo {
        stats_v(k, cs.drop_last()).push(fila_stats(k, cs.last()))
    } else {
        stats_v(k, cs.drop_last())
    }
}

/// Whether the row `f` of `docker stats` describes the container `c`: its
/// name, the memory used and the limit of its control group, its CPU share.
pub open spec fn muestra(k: KernelV, f: (Seq<char>, u32, u32, u32, nat, nat), c: ContenedorV) -> bool {
    &&& c.estado == Estado::Corriendo
    &&& f.0 == c.nombre
    &&& f.1 == k.cgs[c.cgroup].uso_mem_mb
    &&& f.2 == k.cgs[c.cgroup].limite_mem_mb
    &&& f.3 == k.cgs[c.cgroup].cpus_milesimas
}

/// `docker stats` shows the running containers and only them: every row
/// describes a running container, every running container has a row that
/// describes it, and there are no more rows than containers.
pub proof fn ley_stats_filas(k: KernelV, cs: Seq<ContenedorV>)
    ensures
        stats_v(k, cs).len() <= cs.len(),
        forall|i: int|
            0 <= i < stats_v(k, cs).len() ==> exists|j: int|
                0 <= j < cs.len() && muestra(k, #[trigger] stats_v(k, cs)[i], cs[j]),
        forall|j: int|
            0 <= j < cs.len() && (#[trigger] cs[j]).estado == Estado::Corriendo ==> exists|i: int|
                0 <= i < stats_v(k, cs).len() && muestra(k, stats_v(k, cs)[i], cs[j]),
    decreases cs.len(),
{
    if cs.len() > 0 {
        let r = cs.drop_last();
        ley_stats_filas(k, r);
        let sr = stats_v(k, r);
        let st = stats_v(k, cs);
        let c = cs.last();
        assert forall|i: int| 0 <= i < st.len() implies exists|j: int|
            0 <= j < cs.len() && muestra(k, #[trigger] st[i], cs[j]) by {
            if i < sr.len() {
                assert(st[i] == sr[i]);
                let j = choose|j: int| 0 <= j < r.len() && muestra(k, sr[i], r[j]);
                assert(cs[j] == r[j]);
            } else {
                assert(muestra(k, st[i], cs[cs.len() - 1]));
            }
        }
        assert forall|j: int| 0 <= j < cs.len() && (#[trigger] cs[j]).estado == Estado::Corriendo implies exists|i: int|
            0 <= i < st.len() && muestra(k, st[i], cs[j]) by {
            if j < r.len() {
                assert(cs[j] == r[j]);
                assert(r[j].estado == Estado::Corriendo);
                let i = choose|i: int| 0 <= i < sr.len() && muestra(k, sr[i], r[j]);
                assert(st[i] == sr[i]);
            } else {
                assert(muestra(k, st[sr.len() as int], cs[j]));
            }
        }
    }
}

pub open spec fn vista_fila_stats(f: (String, u32, u32, u32, usize, u64)) -> (Seq<char>, u32, u32, u32, nat, nat) {
    (f.0@, f.1, f.2, f.3, f.4 as nat, f.5 as nat)
}

/// Total of the calls counted in a list of counters.
pub open spec fn suma_cuentas(s: Seq<(Seq<char>, u64)>) -> nat
    decreases s.len(),
{
    if s.len() == 0 {
        0
    } else {
        suma_cuentas(s.drop_last()) + s.last().1 as nat
    }
}

/// What a kernel panic did to a container, as the engine tells it.
pub open spec fn efecto_v(k: KernelV, c: ContenedorV) -> Efecto {
    if c.estado != Estado::Corriendo {
        Efecto::YaDetenido
    } else if !k.panico && buscar_pid(k.procs, c.pid1) is Some {
        Efecto::SigueVivo
    } else {
        Efecto::Caido
    }
}

impl Motor {
    pub closed spec fn nucleo(&self) -> KernelV {
        self.kernel.vista()
    }

    pub closed spec fn cache(&self) -> Seq<(Seq<char>, EntradaV)> {
        self.registro.cache()
    }

    pub closed spec fn imagenes(&self) -> Seq<(Seq<char>, ImagenV)> {
        self.registro.imagenes()
    }

    pub closed spec fn conts(&self) -> Seq<ContenedorV> {
        vista_conts(self.contenedores@)
    }

    pub closed spec fn wf(&self) -> bool {
        &&& self.kernel.wf()
        &&& self.registro.wf()
        &&& contenedores_validos(self.nucleo(), self.conts())
    }

    pub fn nuevo(kernel: Kernel) -> (m: Motor)
        requires
            kernel.wf(),
        ensures
            m.wf(),
            m.nucleo() == kernel.vista(),
            m.cache() == Seq::<(Seq<char>, EntradaV)>::empty(),
            m.imagenes() == Seq::<(Seq<char>, ImagenV)>::empty(),
            m.conts() == Seq::<ContenedorV>::empty(),
    {
        let m = Motor { kernel, registro: Registro::nuevo(), contenedores: Vec::new() };
        proof {
            assert(m.conts() =~= Seq::<ContenedorV>::empty());
        }
        m
    }

    /// Position of the first container called `nombre`.
    fn buscar(&self, nombre: &str) -> (r: Option<usize>)
        ensures
            match r {
                Some(i) => primero(self.conts(), nombre@) == Some(i as int),
                None => primero(self.conts(), nombre@) is None,
            },
    {
        let ghost cs = self.conts();
        let buscado = nombre.to_owned();
        let mut i: usize = 0;
        while i < self.contenedores.len()
            invariant
                i <= cs.len(),
                cs == self.conts(),
                buscado@ == nombre@,
                forall|j: int| 0 <= j < i ==> cs[j].nombre != nombre@,
            decreases cs.len() - i,
        {
            proof {
                assert(cs[i as int] == self.contenedores@[i as int]@);
            }
            if *self.contenedores[i].nombre() == buscado {
                proof {
                    assert(es_primero(cs, nombre@, i as int));
                    let c = choose|c: int| es_primero(cs, nombre@, c);
                    assert(c == i);
                }
                return Some(i);
            }
            i = i + 1;
        }
        None
    }

    /// Whether there is a container called `nombre`.
    pub fn existe(&self, nombre: &str) -> (b: bool)
        ensures
            b == primero(self.conts(), nombre@) is Some,
    {
        self.buscar(nombre).is_some()
    }

    /// The first container called `nombre`.
    pub fn contenedor(&self, nombre: &str) -> (r: Option<&Contenedor>)
        ensures
            match r {
                Some(c) => primero(self.conts(), nombre@) matches Some(i) && c@ == self.conts()[i],
                None => primero(self.conts(), nombre@) is None,
            },
    {
        match self.buscar(nombre) {
            Some(i) => Some(&self.contenedores[i]),
            None => None,
        }
    }

    /// Whether the image `referencia` has been pulled.
    pub fn imagen_descargada(&self, referencia: &str) -> (b: bool)
        requires
            self.wf(),
        ensures
            b == mapa_de(self.imagenes()).dom().contains(referencia@),
    {
        self.registro.obtener(referencia).is_some()
    }

    /// Release of the shared kernel.
    pub fn version(&self) -> (v: &'static str)
        ensures
            v == self.nucleo().version,
    {
        self.kernel.version()
    }

    /// Position of the first container called `nombre`, which must exist.
    fn idx(&self, nombre: &str) -> (i: usize)
        requires
            primero(self.conts(), nombre@) is Some,
        ensures
            primero(self.conts(), nombre@) == Some(i as int),
            i < self.contenedores@.len(),
    {
        match self.buscar(nombre) {
            Some(i) => i,
            None => 0,
        }
    }

    /// Name of the container that owns the pid namespace `ns`.
    fn nombre_de_ns(&self, ns: Option<NsId>) -> (r: String)
        ensures
            r@ == nombre_de_ns_v(self.conts(), ns),
    {
        match ns {
            None => "(host)".to_owned(),
            Some(n) => {
                let ghost cs = self.conts();
                let mut i: usize = 0;
                while i < self.contenedores.len()
                    invariant
                        i <= cs.len(),
                        cs == self.conts(),
                        ns == Some(n),
                        forall|j: int| 0 <= j < i ==> cs[j].ns.pid != n,
                    decreases cs.len() - i,
                {
                    proof {
                        assert(cs[i as int] == self.contenedores@[i as int]@);
                    }
                    if self.contenedores[i].ns().pid == n {
                        proof {
                            assert(es_primero_ns(cs, n, i as int));
                            let c = choose|c: int| es_primero_ns(cs, n, c);
                            assert(c == i);
                            assert(primero_ns(cs, n) == Some(i as int));
                            assert(nombre_de_ns_v(cs, ns) == cs[i as int].nombre);
                        }
                        return self.contenedores[i].nombre().clone();
                    }
                    i = i + 1;
                }
                "?".to_owned()
            },
        }
    }

    // ----------------------------------------------------------------
    // Images
    // ----------------------------------------------------------------

    /// `docker pull`: gives, for each layer, (digest, instruction, whether
    /// it was already there).
    pub fn pull(&mut self, referencia: &str) -> (r: Result<Vec<(String, String, bool)>, String>)
        requires
            old(self).wf(),
        ensures
            final(self).wf(),
            final(self).nucleo() == old(self).nucleo(),
            final(self).conts() == old(self).conts(),
            match catalogo_v(referencia@) {
                None => {
                    &&& r matches Err(m) && m@ == no_encontrada(referencia@)
                    &&& final(self).cache() == old(self).cache()
                    &&& final(self).imagenes() == old(self).imagenes()
                },
                Some(e) => {
                    let (c2, inf, cs) = bajar_capas(mapa_de(old(self).cache()), e.capas);
                    &&& r matches Ok(v) && vista_informe(v@) == inf
                    &&& mapa_de(final(self).cache()) == c2
                    &&& mapa_de(final(self).imagenes()) == mapa_de(old(self).imagenes()).insert(
                        referencia@,
                        ImagenV { capas: cs, ..e },
                    )
                },
            },
    {
        self.registro.pull(referencia)
    }

    /// Layers kept on disk, each once: (digest, instruction, how many
    /// images and containers use it).
    pub fn capas_compartidas(&self) -> (r: Vec<(String, String, usize)>)
        requires
            self.wf(),
            forall|i: int| 0 <= i < self.cache().len() ==> usos(self.imagenes(), #[trigger] self.cache()[i].0)
                + self.cache()[i].1.prestada <= usize::MAX,
        ensures
            vista_uso(r@) == tabla_uso(self.cache(), self.imagenes()),
    {
        proof {
            assert(self.cache() == self.registro.cache());
            assert(self.imagenes() == self.registro.imagenes());
        }
        self.registro.uso_capas()
    }

    // ----------------------------------------------------------------
    // Life cycle
    // ----------------------------------------------------------------

    /// `docker run`: the engine asks the kernel for four namespaces, a
    /// control group, an address on the bridge and, last, the main
    /// process of the image, a normal process of the host with another
    /// view. No kernel is booted. Gives what was set up (nothing while the
    /// kernel is in panic) and how the main process started; the container
    /// exists only when it did.
    pub fn run(&mut self, nombre: &str, imagen: &str, op: Opciones) -> (r: (
        Option<Montaje>,
        Result<(PidHost, u32), ErrorKernel>,
    ))
        requires
            old(self).wf(),
            mapa_de(old(self).imagenes()).dom().contains(imagen@),
            run_admisible(old(self).nucleo()),
            forall|i: int| 0 <= i < old(self).cache().len() ==> (#[trigger] old(self).cache()[i]).1.prestada
                + ocurrencias(mapa_de(old(self).imagenes())[imagen@].capas, old(self).cache()[i].0)
                <= usize::MAX,
        ensures
            final(self).wf(),
            final(self).imagenes() == old(self).imagenes(),
            ({
                let k0 = old(self).nucleo();
                let img = mapa_de(old(self).imagenes())[imagen@];
                let id = id_de(nombre@);
                let cg = cgroup_de(id);
                if k0.panico {
                    &&& r.0 is None
                    &&& r.1 matches Err(e) && e@ == ErrorKernelV::Panico
                    &&& final(self).nucleo() == k0
                    &&& final(self).conts() == old(self).conts()
                    &&& final(self).cache() == old(self).cache()
                } else {
                    let (k6, ns, ip) = montaje_v(k0, cg, op);
                    let (k7, rc) = clone_v(k6, "dockerd"@, img.proceso, Some(ns.pid), Some(cg), img.mem);
                    &&& final(self).nucleo() == k7
                    &&& r.0 matches Some(m) && m.id@ == id && m.hostname@ == bytes_de(id, 0, 12) && m.ns == ns
                        && m.cgroup@ == cg && m.ip@ == ip && m.capas == img.capas.len() && m.proceso@ == img.proceso
                    &&& res_id(r.1) == rc
                    &&& match rc {
                        Ok((pid_host, _)) => {
                            &&& final(self).conts() == old(self).conts().push(
                                ContenedorV {
                                    id,
                                    nombre: nombre@,
                                    imagen: imagen@,
                                    ns,
                                    hostname: bytes_de(id, 0, 12),
                                    ip,
                                    puerto: img.puerto,
                                    cgroup: cg,
                                    pid1: pid_host,
                                    estado: Estado::Corriendo,
                                    capas: img.capas,
                                    rw: Seq::empty(),
                                },
                            )
                            &&& final(self).cache() == prestar(old(self).cache(), img.capas)
                        },
                        Err(_) => {
                            &&& final(self).conts() == old(self).conts()
                            &&& final(self).cache() == old(self).cache()
                        },
                    }
                }
            }),
    {
        let ghost k0 = self.nucleo();
        let ghost cs0 = self.conts();
        let (num_capas, proceso, mem, puerto) = match self.registro.obtener(imagen) {
            Some(img) => (img.capas.len(), img.proceso_principal.clone(), img.mem_principal_mb, img.puerto),
            None => (0, String::new(), 0, 0),
        };
        let ghost img = mapa_de(self.imagenes())[imagen@];
        let id = generar_id(nombre);
        proof {
            ley_id(nombre@, 4);
            lema_ascii_corte(id@, 12);
        }
        let (corto, _) = partir(id.as_str(), 12);
        let mut cg = "/docker/".to_owned();
        agregar(&mut cg, corto.as_str());
        let o = "dockerd";
        let (ns, ip) = match montar(&mut self.kernel, cg.as_str(), op) {
            Some(x) => x,
            None => {
                return (None, Err(ErrorKernel::Panico));
            },
        };
        let ghost k6 = self.nucleo();
        proof {
            assert(clone_admisible(k6, o@, Some(ns.pid), Some(cg@), mem));
            lema_conserva_clone(k6, o@, proceso@, Some(ns.pid), Some(cg@), mem);
        }
        let montaje = Montaje {
            id: id.clone(),
            hostname: corto.clone(),
            ns,
            cgroup: cg.clone(),
            ip: ip.clone(),
            capas: num_capas,
            proceso: proceso.clone(),
        };
        let res = self.kernel.clone_proceso(o, proceso.as_str(), Some(ns.pid), Some(cg.as_str()), mem);
        let ghost k7 = self.nucleo();
        proof {
            lema_conserva_transitiva(k0, k6, k7);
            lema_validos_conserva(k0, k7, cs0);
            assert(self.imagenes() == old(self).imagenes());
        }
        match res {
            Ok((pid_host, pid_local)) => {
                proof {
                    self.registro.lema_digests_imagen(imagen@);
                    assert(self.registro.cache() == old(self).cache());
                    assert(self.registro.imagenes() == old(self).imagenes());
                }
                let capas = self.registro.prestar_capas(imagen);
                let c = Contenedor::nuevo(id, nombre, imagen, ns, ip, puerto, cg, pid_host, capas);
                self.contenedores.push(c);
                proof {
                    let cs1 = self.conts();
                    assert(cs1 =~= cs0.push(c@));
                    assert(ordenada(c@.rw));
                    assert(contenedor_valido(k7, c@));
                    assert forall|i: int| 0 <= i < cs1.len() implies contenedor_valido(k7, #[trigger] cs1[i]) by {
                        if i < cs0.len() {
                            assert(cs1[i] == cs0[i]);
                        }
                    }
                }
                (Some(montaje), Ok((pid_host, pid_local)))
            },
            Err(e) => (Some(montaje), Err(e)),
        }
    }

    /// The main process of a container creates a child: same pid
    /// namespace, same control group. Gives its pid on the host and inside.
    pub fn hijo(&mut self, nombre: &str, proceso: &str, mem_mb: u32) -> (r: Result<(PidHost, u32), ErrorKernel>)
        requires
            old(self).wf(),
            primero(old(self).conts(), nombre@) is Some,
            ({
                let c = old(self).conts()[primero(old(self).conts(), nombre@)->0];
                clone_admisible(old(self).nucleo(), nombre@, Some(c.ns.pid), Some(c.cgroup), mem_mb)
            }),
        ensures
            final(self).wf(),
            final(self).conts() == old(self).conts(),
            final(self).cache() == old(self).cache(),
            final(self).imagenes() == old(self).imagenes(),
            ({
                let c = old(self).conts()[primero(old(self).conts(), nombre@)->0];
                (final(self).nucleo(), res_id(r)) == clone_v(
                    old(self).nucleo(),
                    nombre@,
                    proceso@,
                    Some(c.ns.pid),
                    Some(c.cgroup),
                    mem_mb,
                )
            }),
    {
        let i = self.idx(nombre);
        let ns = self.contenedores[i].ns().pid;
        let cg = self.contenedores[i].cgroup().clone();
        proof {
            assert(self.conts()[i as int] == self.contenedores@[i as int]@);
            lema_conserva_clone(self.nucleo(), nombre@, proceso@, Some(ns), Some(cg@), mem_mb);
        }
        let ghost k0 = self.nucleo();
        let r = self.kernel.clone_proceso(nombre, proceso, Some(ns), Some(cg.as_str()), mem_mb);
        proof {
            lema_validos_conserva(k0, self.nucleo(), self.conts());
        }
        r
    }

    // ----------------------------------------------------------------
    // Views
    // ----------------------------------------------------------------

    /// `docker exec <nombre> ps`: the processes seen from the pid namespace
    /// of the container.
    pub fn exec_ps(&mut self, nombre: &str) -> (r: Result<Vec<ProcesoHost>, ErrorKernel>)
        requires
            old(self).wf(),
            primero(old(self).conts(), nombre@) is Some,
            !old(self).nucleo().panico ==> cuenta(old(self).nucleo().sys, nombre@) < u64::MAX,
        ensures
            final(self).wf(),
            final(self).conts() == old(self).conts(),
            final(self).cache() == old(self).cache(),
            final(self).imagenes() == old(self).imagenes(),
            final(self).nucleo() == syscall_v(old(self).nucleo(), nombre@).0,
            match syscall_v(old(self).nucleo(), nombre@).1 {
                Ok(_) => r matches Ok(v) && vista_procs(v@) == vistos(
                    old(self).nucleo().procs,
                    Some(old(self).conts()[primero(old(self).conts(), nombre@)->0].ns.pid),
                ),
                Err(e) => r matches Err(x) && x@ == e,
            },
    {
        let i = self.idx(nombre);
        let ns = self.contenedores[i].ns().pid;
        proof {
            assert(self.conts()[i as int] == self.contenedores@[i as int]@);
        }
        let r = self.kernel.ps(nombre, Some(ns));
        proof {
            lema_validos_conserva(old(self).nucleo(), self.nucleo(), self.conts());
        }
        r
    }

    /// `ps -e` on the host: every process with the container it belongs
    /// to.
    pub fn host_ps(&mut self) -> (r: Result<Vec<(ProcesoHost, String)>, ErrorKernel>)
        requires
            old(self).wf(),
            !old(self).nucleo().panico ==> cuenta(old(self).nucleo().sys, "host"@) < u64::MAX,
        ensures
            final(self).wf(),
            final(self).conts() == old(self).conts(),
            final(self).cache() == old(self).cache(),
            final(self).imagenes() == old(self).imagenes(),
            final(self).nucleo() == syscall_v(old(self).nucleo(), "host"@).0,
            match syscall_v(old(self).nucleo(), "host"@).1 {
                Ok(_) => r matches Ok(v) && v@.len() == old(self).nucleo().procs.len() && forall|i: int|
                    0 <= i < v@.len() ==> (#[trigger] v@[i]).0@ == old(self).nucleo().procs[i] && v@[i].1@
                        == nombre_de_ns_v(old(self).conts(), old(self).nucleo().procs[i].ns_pid),
                Err(e) => r matches Err(x) && x@ == e,
            },
    {
        let ghost k0 = self.nucleo();
        let lista = match self.kernel.ps("host", None) {
            Ok(l) => l,
            Err(e) => {
                return Err(e);
            },
        };
        proof {
            lema_validos_conserva(k0, self.nucleo(), self.conts());
            ley_host_ve_todo(k0.procs);
        }
        let mut r: Vec<(ProcesoHost, String)> = Vec::new();
        let mut i: usize = 0;
        while i < lista.len()
            invariant
                i <= lista@.len(),
                vista_procs(lista@) == k0.procs,
                r@.len() == i,
                self.conts() == old(self).conts(),
                forall|j: int|
                    0 <= j < i ==> (#[trigger] r@[j]).0@ == k0.procs[j] && r@[j].1@ == nombre_de_ns_v(
                        old(self).conts(),
                        k0.procs[j].ns_pid,
                    ),
            decreases lista@.len() - i,
        {
            proof {
                assert(vista_procs(lista@)[i as int] == lista@[i as int]@);
            }
            let nombre = self.nombre_de_ns(lista[i].ns_pid);
            r.push((lista[i].copia(), nombre));
            i = i + 1;
        }
        Ok(r)
    }

    /// `uname -r; hostname; hostname -i` inside a container, or on the
    /// host (`None`). Gives the release of the kernel and, for a
    /// container, its hostname and address.
    pub fn identidad(&mut self, nombre: Option<&str>) -> (r: Result<
        (&'static str, Option<(String, String)>),
        ErrorKernel,
    >)
        requires
            old(self).wf(),
            nombre matches Some(n) ==> primero(old(self).conts(), n@) is Some,
            !old(self).nucleo().panico ==> cuenta(
                old(self).nucleo().sys,
                match nombre {
                    Some(n) => n@,
                    None => "host"@,
                },
            ) < u64::MAX,
        ensures
            final(self).wf(),
            final(self).conts() == old(self).conts(),
            final(self).cache() == old(self).cache(),
            final(self).imagenes() == old(self).imagenes(),
            ({
                let o = match nombre {
                    Some(n) => n@,
                    None => "host"@,
                };
                &&& final(self).nucleo() == syscall_v(old(self).nucleo(), o).0
                &&& match syscall_v(old(self).nucleo(), o).1 {
                    Ok(_) => r matches Ok((v, id)) && v == old(self).nucleo().version && match nombre {
                        Some(n) => {
                            let c = old(self).conts()[primero(old(self).conts(), n@)->0];
                            id matches Some((h, ip)) && h@ == c.hostname && ip@ == c.ip
                        },
                        None => id is None,
                    },
                    Err(e) => r matches Err(x) && x@ == e,
                }
            }),
    {
        match nombre {
            Some(n) => {
                let i = self.idx(n);
                let v = match self.kernel.uname(n) {
                    Ok(v) => v,
                    Err(e) => {
                        return Err(e);
                    },
                };
                proof {
                    lema_validos_conserva(old(self).nucleo(), self.nucleo(), self.conts());
                    assert(self.conts()[i as int] == self.contenedores@[i as int]@);
                }
                let c = &self.contenedores[i];
                Ok((v, Some((c.hostname().clone(), c.ip().clone()))))
            },
            None => {
                let v = match self.kernel.uname("host") {
                    Ok(v) => v,
                    Err(e) => {
                        return Err(e);
                    },
                };
                proof {
                    lema_validos_conserva(old(self).nucleo(), self.nucleo(), self.conts());
                }
                Ok((v, None))
            },
        }
    }

    // ----------------------------------------------------------------
    // File system
    // ----------------------------------------------------------------

    /// `echo ... > ruta` inside a container: copy-on-write into its
    /// writable layer. Gives 'C' (the image had it) or 'A' (new file).
    pub fn escribir(&mut self, nombre: &str, ruta: &str, contenido: &str) -> (r: Result<char, ErrorKernel>)
        requires
            old(self).wf(),
            primero(old(self).conts(), nombre@) is Some,
            !old(self).nucleo().panico ==> cuenta(old(self).nucleo().sys, nombre@) < u64::MAX,
        ensures
            final(self).wf(),
            final(self).cache() == old(self).cache(),
            final(self).imagenes() == old(self).imagenes(),
            final(self).nucleo() == syscall_v(old(self).nucleo(), nombre@).0,
            match syscall_v(old(self).nucleo(), nombre@).1 {
                Ok(_) => {
                    let i = primero(old(self).conts(), nombre@)->0;
                    let c = old(self).conts()[i];
                    &&& r == Ok::<char, ErrorKernel>(tipo_cambio(Some(contenido@), en_imagen(c.capas, ruta@)))
                    &&& con_rw(old(self).conts(), final(self).conts(), i, mapa_de(c.rw).insert(ruta@, Some(contenido@)))
                },
                Err(e) => r matches Err(x) && x@ == e && final(self).conts() == old(self).conts(),
            },
    {
        match self.kernel.syscall(nombre) {
            Ok(()) => {},
            Err(e) => {
                proof {
                    lema_validos_conserva(old(self).nucleo(), self.nucleo(), self.conts());
                }
                return Err(e);
            },
        }
        let i = self.idx(nombre);
        let ghost cs0 = self.conts();
        proof {
            assert(cs0[i as int] == self.contenedores@[i as int]@);
            assert(contenedor_valido(old(self).nucleo(), cs0[i as int]));
        }
        let t = self.contenedores[i].escribir(ruta, contenido);
        proof {
            let cs1 = self.conts();
            assert(cs1[i as int] == self.contenedores@[i as int]@);
            assert forall|j: int| 0 <= j < cs0.len() && j != i implies #[trigger] cs1[j] == cs0[j] by {
                assert(cs1[j] == self.contenedores@[j]@);
            }
            assert(con_rw(cs0, cs1, i as int, mapa_de(cs0[i as int].rw).insert(ruta@, Some(contenido@))));
            assert forall|j: int| 0 <= j < cs1.len() implies contenedor_valido(self.nucleo(), #[trigger] cs1[j]) by {
                assert(contenedor_valido(old(self).nucleo(), cs0[j]));
            }
        }
        Ok(t)
    }

    /// `rm ruta` inside a container: the image is read only, so a whiteout
    /// in the writable layer hides the file.
    pub fn borrar(&mut self, nombre: &str, ruta: &str) -> (r: Result<(), ErrorKernel>)
        requires
            old(self).wf(),
            primero(old(self).conts(), nombre@) is Some,
            !old(self).nucleo().panico ==> cuenta(old(self).nucleo().sys, nombre@) < u64::MAX,
        ensures
            final(self).wf(),
            final(self).cache() == old(self).cache(),
            final(self).imagenes() == old(self).imagenes(),
            final(self).nucleo() == syscall_v(old(self).nucleo(), nombre@).0,
            match syscall_v(old(self).nucleo(), nombre@).1 {
                Ok(_) => {
                    let i = primero(old(self).conts(), nombre@)->0;
                    let c = old(self).conts()[i];
                    &&& r is Ok
                    &&& con_rw(old(self).conts(), final(self).conts(), i, mapa_de(c.rw).insert(ruta@, None))
                },
                Err(e) => r matches Err(x) && x@ == e && final(self).conts() == old(self).conts(),
            },
    {
        match self.kernel.syscall(nombre) {
            Ok(()) => {},
            Err(e) => {
                proof {
                    lema_validos_conserva(old(self).nucleo(), self.nucleo(), self.conts());
                }
                return Err(e);
            },
        }
        let i = self.idx(nombre);
        let ghost cs0 = self.conts();
        proof {
            assert(cs0[i as int] == self.contenedores@[i as int]@);
            assert(contenedor_valido(old(self).nucleo(), cs0[i as int]));
        }
        self.contenedores[i].borrar(ruta);
        proof {
            let cs1 = self.conts();
            assert(cs1[i as int] == self.contenedores@[i as int]@);
            assert forall|j: int| 0 <= j < cs0.len() && j != i implies #[trigger] cs1[j] == cs0[j] by {
                assert(cs1[j] == self.contenedores@[j]@);
            }
            assert(con_rw(cs0, cs1, i as int, mapa_de(cs0[i as int].rw).insert(ruta@, None)));
            assert forall|j: int| 0 <= j < cs1.len() implies contenedor_valido(self.nucleo(), #[trigger] cs1[j]) by {
                assert(contenedor_valido(old(self).nucleo(), cs0[j]));
            }
        }
        Ok(())
    }

    /// `cat ruta` inside a container: gives the content and where it was
    /// read from, or `None` when there is no such file.
    pub fn leer(&mut self, nombre: &str, ruta: &str) -> (r: Result<Option<(String, String)>, ErrorKernel>)
        requires
            old(self).wf(),
            primero(old(self).conts(), nombre@) is Some,
            !old(self).nucleo().panico ==> cuenta(old(self).nucleo().sys, nombre@) < u64::MAX,
        ensures
            final(self).wf(),
            final(self).cache() == old(self).cache(),
            final(self).imagenes() == old(self).imagenes(),
            final(self).conts() == old(self).conts(),
            final(self).nucleo() == syscall_v(old(self).nucleo(), nombre@).0,
            match syscall_v(old(self).nucleo(), nombre@).1 {
                Ok(_) => {
                    let c = old(self).conts()[primero(old(self).conts(), nombre@)->0];
                    r matches Ok(l) && match l {
                        Some((t, o)) => leer_v(mapa_de(c.rw), c.capas, ruta@) == Some((t@, o@)),
                        None => leer_v(mapa_de(c.rw), c.capas, ruta@) is None,
                    }
                },
                Err(e) => r matches Err(x) && x@ == e,
            },
    {
        let i = self.idx(nombre);
        match self.kernel.syscall(nombre) {
            Ok(()) => {},
            Err(e) => {
                proof {
                    lema_validos_conserva(old(self).nucleo(), self.nucleo(), self.conts());
                }
                return Err(e);
            },
        }
        proof {
            lema_validos_conserva(old(self).nucleo(), self.nucleo(), self.conts());
            let c = self.conts()[i as int];
            assert(c == self.contenedores@[i as int]@);
            assert(contenedor_valido(self.nucleo(), c));
            lema_lectura_posible(mapa_de(c.rw), c.capas, ruta@);
        }
        Ok(self.contenedores[i].leer(ruta))
    }

    /// `docker diff`: the changes of the writable layer of a container.
    pub fn diff(&self, nombre: &str) -> (r: Vec<(char, String)>)
        requires
            primero(self.conts(), nombre@) is Some,
        ensures
            ({
                let c = self.conts()[primero(self.conts(), nombre@)->0];
                r@.map_values(|e: (char, String)| (e.0, e.1@)) == diff_v(c.rw, c.capas)
            }),
    {
        let i = self.idx(nombre);
        proof {
            assert(self.conts()[i as int] == self.contenedores@[i as int]@);
        }
        self.contenedores[i].diff()
    }

    /// Position of the first running container called `nombre`.
    fn buscar_activo(&self, nombre: &str) -> (r: Option<usize>)
        ensures
            match r {
                Some(i) => primero_activo(self.conts(), nombre@) == Some(i as int),
                None => primero_activo(self.conts(), nombre@) is None,
            },
    {
        let ghost cs = self.conts();
        let buscado = nombre.to_owned();
        let mut i: usize = 0;
        while i < self.contenedores.len()
            invariant
                i <= cs.len(),
                cs == self.conts(),
                buscado@ == nombre@,
                forall|j: int| 0 <= j < i ==> !(cs[j].nombre == nombre@ && cs[j].estado == Estado::Corriendo),
            decreases cs.len() - i,
        {
            proof {
                assert(cs[i as int] == self.contenedores@[i as int]@);
            }
            if *self.contenedores[i].nombre() == buscado && self.contenedores[i].corriendo() {
                proof {
                    assert(es_primero_activo(cs, nombre@, i as int));
                    let c = choose|c: int| es_primero_activo(cs, nombre@, c);
                    assert(c == i);
                }
                return Some(i);
            }
            i = i + 1;
        }
        None
    }

    /// A container connects to another one by name, through the bridge.
    pub fn conectar(&mut self, origen: &str, destino: &str, peticion: &str) -> (r: Result<Conexion, ErrorKernel>)
        requires
            old(self).wf(),
            primero(old(self).conts(), origen@) is Some,
            conexion_admisible(old(self).nucleo(), old(self).conts(), origen@, destino@),
        ensures
            final(self).wf(),
            final(self).conts() == old(self).conts(),
            final(self).cache() == old(self).cache(),
            final(self).imagenes() == old(self).imagenes(),
            ({
                let (k1, rr) = conexion_v(old(self).nucleo(), old(self).conts(), origen@, destino@);
                &&& final(self).nucleo() == k1
                &&& match rr {
                    Ok(c) => r matches Ok(x) && x@ == c,
                    Err(e) => r matches Err(x) && x@ == e,
                }
            }),
    {
        let ghost k0 = self.nucleo();
        let ghost cs = self.conts();
        let io = self.idx(origen);
        proof {
            assert(cs[io as int] == self.contenedores@[io as int]@);
        }
        let ip_o = self.contenedores[io].ip().clone();
        let d = match self.buscar_activo(destino) {
            Some(d) => d,
            None => {
                let r = self.kernel.syscall(origen);
                proof {
                    lema_validos_conserva(k0, self.nucleo(), self.conts());
                }
                return match r {
                    Ok(()) => Ok(Conexion::SinResolver),
                    Err(e) => Err(e),
                };
            },
        };
        proof {
            assert(cs[d as int] == self.contenedores@[d as int]@);
            lema_primero_existe(cs, destino@, d as int);
        }
        let ip_d = self.contenedores[d].ip().clone();
        let puerto = self.contenedores[d].puerto();
        let imagen = self.contenedores[d].imagen().clone();
        let redes = match self.kernel.enviar(origen, ip_o.as_str(), ip_d.as_str(), puerto) {
            Ok(redes) => redes,
            Err(e) => {
                proof {
                    lema_validos_conserva(k0, self.nucleo(), self.conts());
                }
                return Err(e);
            },
        };
        let ghost k1 = self.nucleo();
        match self.kernel.syscall(destino) {
            Ok(()) => {},
            Err(e) => {
                proof {
                    lema_validos_conserva(k0, self.nucleo(), self.conts());
                }
                return Err(e);
            },
        }
        proof {
            lema_validos_conserva(k0, self.nucleo(), self.conts());
        }
        let texto = if empieza_con(imagen.as_str(), "postgres") {
            " id | usuario\n    ----+--------\n     1  | henry\n    (1 fila)".to_owned()
        } else {
            let id = self.idx(destino);
            proof {
                let c = cs[id as int];
                assert(c == self.contenedores@[id as int]@);
                assert(contenedor_valido(self.nucleo(), c));
                lema_lectura_posible(mapa_de(c.rw), c.capas, pagina_nginx());
            }
            match self.contenedores[id].leer("/usr/share/nginx/html/index.html") {
                Some((c, _)) => {
                    let mut t = "HTTP/1.1 200 OK\n    ".to_owned();
                    agregar(&mut t, c.as_str());
                    t
                },
                None => "HTTP/1.1 404".to_owned(),
            }
        };
        Ok(Conexion::Respuesta { ip: ip_d, puerto, redes, texto })
    }

    // ----------------------------------------------------------------
    // Resources
    // ----------------------------------------------------------------

    /// The main process of a container asks for `mb` MB. Above the limit of
    /// its control group the out-of-memory killer stops the container, and
    /// only it: the engine takes it off the bridge and marks it stopped
    /// with code 137.
    pub fn pedir_memoria(&mut self, nombre: &str, mb: u32, _motivo: &str) -> (r: Result<Memoria, ErrorKernel>)
        requires
            old(self).wf(),
            primero(old(self).conts(), nombre@) is Some,
            reserva_admisible(
                old(self).nucleo(),
                nombre@,
                old(self).conts()[primero(old(self).conts(), nombre@)->0].pid1,
                mb,
            ),
        ensures
            final(self).wf(),
            final(self).cache() == old(self).cache(),
            final(self).imagenes() == old(self).imagenes(),
            ({
                let i = primero(old(self).conts(), nombre@)->0;
                let c = old(self).conts()[i];
                let (k1, rr) = reservar_v(old(self).nucleo(), nombre@, c.pid1, mb);
                match rr {
                    Ok(_) => {
                        &&& final(self).nucleo() == k1
                        &&& final(self).conts() == old(self).conts()
                        &&& r matches Ok(m) && m@ == (MemoriaV::Concedida {
                            uso_mem_mb: k1.cgs[c.cgroup].uso_mem_mb,
                            limite_mem_mb: k1.cgs[c.cgroup].limite_mem_mb,
                        })
                    },
                    Err(ErrorKernelV::OomKill { pid, pedido, limite, uso, muertos }) => {
                        &&& final(self).nucleo() == (KernelV { red: k1.red.remove(c.ip), ..k1 })
                        &&& final(self).conts() == old(self).conts().update(
                            i,
                            ContenedorV { estado: Estado::Detenido(137), ..c },
                        )
                        &&& r matches Ok(m) && m@ == (MemoriaV::Matado { pid, pedido, limite, uso, muertos })
                    },
                    Err(e) => {
                        &&& final(self).nucleo() == k1
                        &&& final(self).conts() == old(self).conts()
                        &&& r matches Err(x) && x@ == e
                    },
                }
            }),
    {
        let i = self.idx(nombre);
        let ghost cs0 = self.conts();
        let ghost k0 = self.nucleo();
        proof {
            assert(cs0[i as int] == self.contenedores@[i as int]@);
            lema_conserva_reservar(k0, nombre@, cs0[i as int].pid1, mb);
        }
        let pid1 = self.contenedores[i].pid1();
        let cg = self.contenedores[i].cgroup().clone();
        let ip = self.contenedores[i].ip().clone();
        let res = self.kernel.reservar_memoria(nombre, pid1, mb);
        proof {
            lema_validos_conserva(k0, self.nucleo(), self.conts());
        }
        match res {
            Ok(()) => {
                let g = match self.kernel.cgroup(cg.as_str()) {
                    Some(g) => g,
                    None => {
                        proof {
                            assert(contenedor_valido(self.nucleo(), self.conts()[i as int]));
                        }
                        Cgroup { limite_mem_mb: 0, cpus_milesimas: 0, uso_mem_mb: 0 }
                    },
                };
                Ok(Memoria::Concedida { uso_mem_mb: g.uso_mem_mb, limite_mem_mb: g.limite_mem_mb })
            },
            Err(ErrorKernel::OomKill { pid, pedido, limite, uso, muertos }) => {
                let ghost k1 = self.nucleo();
                self.kernel.desconectar_bridge(ip.as_str());
                self.contenedores[i].detener(137);
                proof {
                    let cs1 = self.conts();
                    assert(conserva(k1, self.nucleo()));
                    assert(cs1[i as int] == self.contenedores@[i as int]@);
                    assert forall|j: int| 0 <= j < cs0.len() && j != i implies #[trigger] cs1[j] == cs0[j] by {
                        assert(cs1[j] == self.contenedores@[j]@);
                    }
                    assert(cs1 =~= cs0.update(i as int, ContenedorV { estado: Estado::Detenido(137), ..cs0[i as int] }));
                    assert forall|j: int| 0 <= j < cs1.len() implies contenedor_valido(self.nucleo(), #[trigger] cs1[j]) by {
                        assert(contenedor_valido(k1, cs0[j]));
                    }
                }
                Ok(Memoria::Matado { pid, pedido, limite, uso, muertos })
            },
            Err(e) => Err(e),
        }
    }

    // ----------------------------------------------------------------
    // Listings
    // ----------------------------------------------------------------

    /// `docker ps -a`: `None` when there is no kernel running to ask.
    pub fn docker_ps(&self) -> (r: Option<Vec<(String, String, Estado, Option<String>, String)>>)
        requires
            self.wf(),
        ensures
            match r {
                None => self.nucleo().panico,
                Some(v) => {
                    &&& !self.nucleo().panico
                    &&& v@.map_values(|f: (String, String, Estado, Option<String>, String)| vista_fila_ps(f))
                        == self.conts().map_values(|c: ContenedorV| fila_ps(c))
                    &&& v@.len() == self.conts().len()
                    &&& forall|i: int|
                        0 <= i < v@.len() ==> (#[trigger] v@[i]).1@ == self.conts()[i].imagen && v@[i].4@
                            == self.conts()[i].nombre
                },
            },
    {
        if self.kernel.en_panico() {
            return None;
        }
        let ghost cs = self.conts();
        let mut r: Vec<(String, String, Estado, Option<String>, String)> = Vec::new();
        let mut i: usize = 0;
        while i < self.contenedores.len()
            invariant
                i <= cs.len(),
                cs == self.conts(),
                contenedores_validos(self.nucleo(), cs),
                r@.len() == i,
                forall|j: int| 0 <= j < i ==> vista_fila_ps(#[trigger] r@[j]) == fila_ps(cs[j]),
            decreases cs.len() - i,
        {
            let c = &self.contenedores[i];
            proof {
                assert(cs[i as int] == c@);
                assert(contenedor_valido(self.nucleo(), cs[i as int]));
            }
            let ip = if c.corriendo() {
                Some(c.ip().clone())
            } else {
                None
            };
            r.push((c.hostname().clone(), c.imagen().clone(), c.estado(), ip, c.nombre().clone()));
            i = i + 1;
        }
        proof {
            assert(r@.map_values(|f: (String, String, Estado, Option<String>, String)| vista_fila_ps(f))
                =~= cs.map_values(|c: ContenedorV| fila_ps(c)));
            assert forall|i: int| 0 <= i < r@.len() implies (#[trigger] r@[i]).1@ == cs[i].imagen && r@[i].4@
                == cs[i].nombre by {
                assert(vista_fila_ps(r@[i]) == fila_ps(cs[i]));
            }
        }
        Some(r)
    }

    /// Calls made by `origen`, as the kernel counts them.
    fn syscalls_de(&self, origen: &String) -> (n: u64)
        requires
            self.wf(),
        ensures
            n == cuenta(self.nucleo().sys, origen@),
    {
        let v = self.kernel.syscalls();
        proof {
            self.kernel.lema_lista_syscalls();
            crate::kernel::lema_ordenada_unicas(vista_lista(v@));
            lema_mapa_de(vista_lista(v@));
        }
        match posicion(v, origen.as_str()) {
            Some(j) => {
                proof {
                    assert(vista_lista(v@)[j as int] == (v@[j as int].0@, v@[j as int].1));
                }
                v[j].1
            },
            None => {
                proof {
                    if mapa_de(vista_lista(v@)).dom().contains(origen@) {
                        let q = choose|q: int| 0 <= q < vista_lista(v@).len() && vista_lista(v@)[q].0 == origen@;
                        assert(vista_lista(v@)[q].0 == v@[q].0@);
                    }
                }
                0
            },
        }
    }

    /// `docker stats`: use of each running container. The memory
    /// percentage is left to whoever shows it.
    pub fn stats(&self) -> (r: Vec<(String, u32, u32, u32, usize, u64)>)
        requires
            self.wf(),
        ensures
            r@.map_values(|f: (String, u32, u32, u32, usize, u64)| vista_fila_stats(f)) == stats_v(
                self.nucleo(),
                self.conts(),
            ),
    {
        let ghost cs = self.conts();
        let ghost k = self.nucleo();
        let mut r: Vec<(String, u32, u32, u32, usize, u64)> = Vec::new();
        let mut i: usize = 0;
        while i < self.contenedores.len()
            invariant
                i <= cs.len(),
                cs == self.conts(),
                k == self.nucleo(),
                self.wf(),
                r@.map_values(|f: (String, u32, u32, u32, usize, u64)| vista_fila_stats(f)) == stats_v(
                    k,
                    cs.take(i as int),
                ),
            decreases cs.len() - i,
        {
            let c = &self.contenedores[i];
            let ghost antes = r@;
            proof {
                assert(cs[i as int] == c@);
                assert(contenedor_valido(k, cs[i as int]));
                assert(cs.take(i as int + 1).drop_last() =~= cs.take(i as int));
                assert(cs.take(i as int + 1).last() == cs[i as int]);
            }
            if c.corriendo() {
                let g = match self.kernel.cgroup(c.cgroup().as_str()) {
                    Some(g) => g,
                    None => Cgroup { limite_mem_mb: 0, cpus_milesimas: 0, uso_mem_mb: 0 },
                };
                let pids = self.kernel.procesos_en(c.ns().pid);
                let sys = self.syscalls_de(c.nombre());
                r.push((c.nombre().clone(), g.uso_mem_mb, g.limite_mem_mb, g.cpus_milesimas, pids, sys));
                proof {
                    assert(r@.map_values(|f: (String, u32, u32, u32, usize, u64)| vista_fila_stats(f))
                        =~= antes.map_values(|f: (String, u32, u32, u32, usize, u64)| vista_fila_stats(f)).push(
                        fila_stats(k, cs[i as int]),
                    ));
                }
            }
            i = i + 1;
        }
        proof {
            assert(cs.take(i as int) =~= cs);
        }
        r
    }

    /// Figures of the one kernel of the host.
    pub fn resumen_kernel(&self) -> (r: Resumen)
        requires
            self.wf(),
            memoria_usada(self.nucleo().procs) <= u32::MAX,
            suma_cuentas(self.lista_syscalls()) <= u64::MAX,
        ensures
            r.mem_usada_mb == memoria_usada(self.nucleo().procs),
            r.mem_total_mb == self.nucleo().mem_total,
            r.syscalls_total == suma_cuentas(self.lista_syscalls()),
            r.contenedores == self.conts().len(),
            r.namespaces == self.nucleo().nss.len(),
            r.cgroups == self.nucleo().cgs.dom().len(),
            r.paquetes == self.nucleo().paquetes,
            vista_lista(r.syscalls@) == self.lista_syscalls(),
    {
        let (usada, total) = self.kernel.memoria_host();
        let v = self.kernel.syscalls();
        let ghost s = vista_lista(v@);
        let mut lista: Vec<(String, u64)> = Vec::new();
        let mut suma: u64 = 0;
        let mut i: usize = 0;
        while i < v.len()
            invariant
                i <= v@.len(),
                s == vista_lista(v@),
                s == self.lista_syscalls(),
                suma_cuentas(s) <= u64::MAX,
                suma == suma_cuentas(s.take(i as int)),
                vista_lista(lista@) == s.take(i as int),
            decreases v@.len() - i,
        {
            proof {
                assert(s.take(i as int + 1).drop_last() =~= s.take(i as int));
                assert(s.take(i as int + 1).last() == s[i as int]);
                lema_suma_prefijo(s, i as int + 1);
                assert(s[i as int] == (v@[i as int].0@, v@[i as int].1));
            }
            let ghost antes = lista@;
            suma = suma + v[i].1;
            lista.push((v[i].0.clone(), v[i].1));
            proof {
                assert(vista_lista(lista@) =~= vista_lista(antes).push(s[i as int]));
            }
            i = i + 1;
        }
        proof {
            assert(s.take(i as int) =~= s);
        }
        Resumen {
            mem_usada_mb: usada,
            mem_total_mb: total,
            syscalls_total: suma,
            contenedores: self.contenedores.len(),
            namespaces: self.kernel.num_namespaces(),
            cgroups: self.kernel.num_cgroups(),
            paquetes: self.kernel.paquetes(),
            syscalls: lista,
        }
    }

    /// Calls counted per caller, in the order of the callers' names.
    pub closed spec fn lista_syscalls(&self) -> Seq<(Seq<char>, u64)> {
        self.kernel.lista_syscalls()
    }

    /// A container runs a program that hits a bug of the kernel: as every
    /// container shares it, everything goes down. Gives what became of each
    /// container and what a new call to the kernel gets.
    pub fn fallo_del_kernel(&mut self, _desde: &str) -> (r: (Vec<(String, Efecto)>, Result<(), ErrorKernel>))
        requires
            old(self).wf(),
        ensures
            final(self).wf(),
            final(self).nucleo() == (KernelV { panico: true, procs: Seq::empty(), ..old(self).nucleo() }),
            final(self).conts() == old(self).conts(),
            final(self).cache() == old(self).cache(),
            final(self).imagenes() == old(self).imagenes(),
            r.0@.map_values(|e: (String, Efecto)| (e.0@, e.1)) == old(self).conts().map_values(
                |c: ContenedorV| (c.nombre, efecto_v(final(self).nucleo(), c)),
            ),
            r.1 matches Err(e) && e@ == ErrorKernelV::Panico,
    {
        self.kernel.panic();
        proof {
            lema_validos_conserva(old(self).nucleo(), self.nucleo(), self.conts());
        }
        let ghost cs = self.conts();
        let ghost k = self.nucleo();
        let mut efectos: Vec<(String, Efecto)> = Vec::new();
        let mut i: usize = 0;
        while i < self.contenedores.len()
            invariant
                i <= cs.len(),
                cs == self.conts(),
                k == self.nucleo(),
                self.kernel.wf(),
                efectos@.len() == i,
                forall|j: int| 0 <= j < i ==> (#[trigger] efectos@[j]).0@ == cs[j].nombre && efectos@[j].1 == efecto_v(k, cs[j]),
            decreases cs.len() - i,
        {
            let c = &self.contenedores[i];
            proof {
                assert(cs[i as int] == c@);
            }
            let efecto = if !c.corriendo() {
                Efecto::YaDetenido
            } else if self.kernel.vivo(c.pid1()) {
                Efecto::SigueVivo
            } else {
                Efecto::Caido
            };
            efectos.push((c.nombre().clone(), efecto));
            i = i + 1;
        }
        proof {
            assert(efectos@.map_values(|e: (String, Efecto)| (e.0@, e.1)) =~= cs.map_values(
                |c: ContenedorV| (c.nombre, efecto_v(k, c)),
            ));
        }
        let r = self.kernel.syscall("host");
        (efectos, r)
    }
}

/// The id of a container is made of lower-case hexadecimal digits (`0` to
/// `9`, `a` to `f`), 16 for each round: 64 in all.
pub proof fn ley_id(nombre: Seq<char>, n: u64)
    ensures
        id_parcial(nombre, n).len() == 16 * n,
        is_ascii_chars(id_parcial(nombre, n)),
        forall|i: int| 0 <= i < 16 * n ==> es_hex(#[trigger] id_parcial(nombre, n)[i]),
    decreases n,
{
    if n > 0 {
        let previo = id_parcial(nombre, (n - 1) as u64);
        ley_id(nombre, (n - 1) as u64);
        let h = hex(hash_ronda(nombre, (n - 1) as u64) as nat, 16);
        lema_hex_ascii(hash_ronda(nombre, (n - 1) as u64) as nat, 16);
        is_ascii_chars_concat(id_parcial(nombre, n), previo, h);
        assert forall|i: int| 0 <= i < 16 * n implies es_hex(#[trigger] id_parcial(nombre, n)[i]) by {
            if i < previo.len() {
                assert(id_parcial(nombre, n)[i] == previo[i]);
            } else {
                assert(id_parcial(nombre, n)[i] == h[i - previo.len()]);
            }
        }
    }
}

/// The hash of `bs` for the round `ronda`, a step for each byte.
fn hash_de(bs: &[u8], ronda: u64) -> (h: u64)
    requires
        ronda < 4,
    ensures
        h == fnv(0xcbf29ce484222325u64 ^ ronda, bs@ + bytes_ronda(ronda)),
{
    let ghost todo = bs@ + bytes_ronda(ronda);
    let ghost h0 = 0xcbf29ce484222325u64 ^ ronda;
    let mut h: u64 = 0xcbf29ce484222325u64 ^ ronda;
    let mut i: usize = 0;
    while i < bs.len()
        invariant
            i <= bs@.len(),
            todo == bs@ + bytes_ronda(ronda),
            h0 == 0xcbf29ce484222325u64 ^ ronda,
            h == fnv(h0, todo.take(i as int)),
        decreases bs@.len() - i,
    {
        proof {
            assert(todo.take(i as int + 1).drop_last() =~= todo.take(i as int));
            assert(todo.take(i as int + 1).last() == bs@[i as int]);
        }
        h = (h ^ (bs[i] as u64)).wrapping_mul(0x100000001b3u64);
        i = i + 1;
    }
    let mut j: usize = 0;
    while j < 8
        invariant
            i == bs@.len(),
            j <= 8,
            ronda < 4,
            todo == bs@ + bytes_ronda(ronda),
            h0 == 0xcbf29ce484222325u64 ^ ronda,
            h == fnv(h0, todo.take(i + j)),
        decreases 8 - j,
    {
        let b: u8 = if j == 0 {
            ronda as u8
        } else {
            0
        };
        proof {
            assert(todo.take(i + j + 1).drop_last() =~= todo.take(i + j));
            assert(todo.take(i + j + 1).last() == bytes_ronda(ronda)[j as int]);
        }
        h = (h ^ (b as u64)).wrapping_mul(0x100000001b3u64);
        j = j + 1;
    }
    proof {
        assert(todo.take(i + j) =~= todo);
    }
    h
}

/// Id of a container, derived from its name.
fn generar_id(nombre: &str) -> (id: String)
    ensures
        id@ == id_de(nombre@),
{
    let bytes = nombre.as_bytes();
    let mut id = String::new();
    let mut ronda: u64 = 0;
    proof {
        assert(id@ =~= id_parcial(nombre@, 0));
    }
    while ronda < 4
        invariant
            ronda <= 4,
            bytes@ == encode_utf8(nombre@),
            id@ == id_parcial(nombre@, ronda),
        decreases 4 - ronda,
    {
        let h = hash_de(bytes, ronda);
        escribir_hex(&mut id, h, 16);
        ronda = ronda + 1;
    }
    id
}

/// The engine sets up what a container needs before its main process:
/// four namespaces, the control group `cg` and an address on the bridge.
/// Nothing is done while the kernel is in panic.
fn montar(kernel: &mut Kernel, cg: &str, op: Opciones) -> (r: Option<(Namespaces, String)>)
    requires
        old(kernel).wf(),
        run_admisible(old(kernel).vista()),
    ensures
        final(kernel).wf(),
        conserva(old(kernel).vista(), final(kernel).vista()),
        match r {
            None => old(kernel).vista().panico && final(kernel).vista() == old(kernel).vista(),
            Some((ns, ip)) => {
                let k = final(kernel).vista();
                &&& !old(kernel).vista().panico
                &&& (k, ns, ip@) == montaje_v(old(kernel).vista(), cg@, op)
                &&& buscar_ns(k.nss, ns.pid) matches Some(j) && k.nss[j].sig_local == 1
                &&& k.cgs.dom().contains(cg@) && k.cgs[cg@].uso_mem_mb == 0
                &&& cuenta(k.sys, "dockerd"@) + 2 <= u64::MAX
                &&& k.sig_pid < u32::MAX
                &&& !k.panico
            },
        },
{
    let ghost k0 = kernel.vista();
    let o = "dockerd";
    let pid = match kernel.unshare(o, TipoNs::Pid) {
        Ok(n) => n,
        Err(_) => {
            return None;
        },
    };
    let ghost k1 = kernel.vista();
    let mnt = match kernel.unshare(o, TipoNs::Mnt) {
        Ok(n) => n,
        Err(_) => {
            return None;
        },
    };
    let ghost k2 = kernel.vista();
    let net = match kernel.unshare(o, TipoNs::Net) {
        Ok(n) => n,
        Err(_) => {
            return None;
        },
    };
    let ghost k3 = kernel.vista();
    let uts = match kernel.unshare(o, TipoNs::Uts) {
        Ok(n) => n,
        Err(_) => {
            return None;
        },
    };
    let ghost k4 = kernel.vista();
    let ns = Namespaces { pid, mnt, net, uts };
    match kernel.crear_cgroup(o, cg, op.memoria_mb, op.cpus_milesimas) {
        Ok(()) => {},
        Err(_) => {
            return None;
        },
    }
    let ghost k5 = kernel.vista();
    let ip = match kernel.conectar_bridge(o, ns.net) {
        Ok(ip) => ip,
        Err(_) => {
            return None;
        },
    };
    let ghost k6 = kernel.vista();
    proof {
        kernel.lema_valido();
        assert(montaje_v(k0, cg@, op) == (k6, ns, ip@));
        let n0 = k0.nss.len() as int;
        assert(k6.nss[n0].id == k0.sig_ns);
        assert(k6.nss[n0].sig_local == 1);
        assert(buscar_ns(k6.nss, ns.pid) == Some(n0)) by {
            let j = buscar_ns(k6.nss, ns.pid)->0;
            assert(k6.nss[j].id == ns.pid);
            if j < n0 {
                assert(k6.nss[j].id < k6.nss[n0].id);
            } else if j > n0 {
                assert(k6.nss[n0].id < k6.nss[j].id);
            }
        }
        lema_conserva_unshare(k0, o@, TipoNs::Pid);
        lema_conserva_unshare(k1, o@, TipoNs::Mnt);
        lema_conserva_unshare(k2, o@, TipoNs::Net);
        lema_conserva_unshare(k3, o@, TipoNs::Uts);
        lema_conserva_transitiva(k0, k1, k2);
        lema_conserva_transitiva(k0, k2, k3);
        lema_conserva_transitiva(k0, k3, k4);
        assert(conserva(k4, k5));
        assert(conserva(k5, k6));
        lema_conserva_transitiva(k0, k4, k5);
        lema_conserva_transitiva(k0, k5, k6);
    }
    Some((ns, ip))
}

/// Running a container boots no kernel: the kernel is the same one, and
/// the main process of the container is pid 1 inside its new pid
/// namespace.
pub proof fn ley_run_mismo_kernel(k0: KernelV, cg: Seq<char>, op: Opciones, proceso: Seq<char>, mem: u32)
    requires
        valido(k0),
        !k0.panico,
        run_admisible(k0),
    ensures
        ({
            let (k6, ns, _) = montaje_v(k0, cg, op);
            let (k7, r) = clone_v(k6, "dockerd"@, proceso, Some(ns.pid), Some(cg), mem);
            &&& k6.version == k0.version
            &&& k7.version == k0.version
            &&& r matches Ok((_, l)) ==> l == 1
        }),
{
    let (k6, ns, _) = montaje_v(k0, cg, op);
    let n0 = k0.nss.len() as int;
    assert(k6.nss[n0].id == k0.sig_ns);
    assert(k6.nss[n0].sig_local == 1);
    assert(buscar_ns(k6.nss, ns.pid) == Some(n0)) by {
        let j = buscar_ns(k6.nss, ns.pid)->0;
        if j < n0 {
            assert(k6.nss[j] == k0.nss[j]);
        } else if j > n0 {
            assert(k6.nss.len() == n0 + 4);
            assert(k6.nss[n0 + 1].id == k0.sig_ns + 1);
            assert(k6.nss[n0 + 2].id == k0.sig_ns + 2);
            assert(k6.nss[n0 + 3].id == k0.sig_ns + 3);
        }
    }
    let k7 = clone_v(k6, "dockerd"@, proceso, Some(ns.pid), Some(cg), mem).0;
    lema_version_reservar(k6, proceso, mem);
}

proof fn lema_version_reservar(k6: KernelV, proceso: Seq<char>, mem: u32)
    ensures
        forall|o: Seq<char>, pid: PidHost| #[trigger] reservar_v(k6, o, pid, mem).0.version == k6.version,
{
}

/// After a kernel panic no container is left running.
pub proof fn ley_panico_tumba_contenedores(k: KernelV, c: ContenedorV)
    requires
        k.panico,
    ensures
        efecto_v(k, c) != Efecto::SigueVivo,
        c.estado == Estado::Corriendo ==> efecto_v(k, c) == Efecto::Caido,
{
}

/// When some container is called `nombre`, there is a first one.
proof fn lema_primero_existe(cs: Seq<ContenedorV>, nombre: Seq<char>, i: int)
    requires
        0 <= i < cs.len(),
        cs[i].nombre == nombre,
    ensures
        primero(cs, nombre) is Some,
    decreases i,
{
    if forall|j: int| 0 <= j < i ==> cs[j].nombre != nombre {
        assert(es_primero(cs, nombre, i));
    } else {
        let j = choose|j: int| 0 <= j < i && cs[j].nombre == nombre;
        lema_primero_existe(cs, nombre, j);
    }
}

proof fn lema_suma_prefijo(s: Seq<(Seq<char>, u64)>, k: int)
    requires
        0 <= k <= s.len(),
    ensures
        suma_cuentas(s.take(k)) <= suma_cuentas(s),
    decreases s.len(),
{
    if k < s.len() {
        assert(s.drop_last().take(k) =~= s.take(k));
        lema_suma_prefijo(s.drop_last(), k);
    } else {
        assert(s.take(k) =~= s);
    }
}


} // verus!
