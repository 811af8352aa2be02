//! The host kernel: a single one, shared by every container.
//!
//! Two things make a container possible: namespaces change what a process
//! sees (pids, files, network, hostname) and control groups limit what it
//! may use (memory, CPU). The kernel does not know what a container is: it
//! only sees processes with different namespaces and control groups.
use vstd::prelude::*;

use crate::claves::{
    claves_unicas, cuenta, lema_mapa_actualizar, lema_mapa_de, lema_mapa_insertar, lema_mapa_quitar,
    mapa_de, posicion, vista_lista,
};
use crate::texto::{agregar, decimal, escribir_decimal, lema_texto_orden, menor, texto_menor};

verus! {

pub type PidHost = u32;

pub type NsId = u64;

#[derive(Clone, Copy, PartialEq, Eq, Debug, Structural)]
pub enum TipoNs {
    Pid,
    Mnt,
    Net,
    Uts,
}

/// Flag of `clone`/`unshare` that creates a namespace of type `t`.
pub open spec fn flag_de(t: TipoNs) -> &'static str {
    match t {
        TipoNs::Pid => "CLONE_NEWPID",
        TipoNs::Mnt => "CLONE_NEWNS ",
        TipoNs::Net => "CLONE_NEWNET",
        TipoNs::Uts => "CLONE_NEWUTS",
    }
}

impl TipoNs {
    pub fn flag(&self) -> (f: &'static str)
        ensures
            f == flag_de(*self),
    {
        match self {
            TipoNs::Pid => "CLONE_NEWPID",
            TipoNs::Mnt => "CLONE_NEWNS ",
            TipoNs::Net => "CLONE_NEWNET",
            TipoNs::Uts => "CLONE_NEWUTS",
        }
    }
}

struct Namespace {
    id: NsId,
    tipo: TipoNs,
    sig_pid_local: u32,
}

/// Mathematical value of a namespace: its id, its type, and the next pid
/// that a process created inside it gets (meaningful for pid namespaces).
pub struct NsV {
    pub id: NsId,
    pub tipo: TipoNs,
    pub sig_local: u32,
}

#[derive(Debug)]
pub struct ProcesoHost {
    pub pid: PidHost,
    pub nombre: String,
    /// `None`: the root namespace (the host).
    pub ns_pid: Option<NsId>,
    /// Pid that the process sees inside its namespace.
    pub pid_local: u32,
    pub cgroup: Option<String>,
    pub mem_mb: u32,
}

pub struct ProcHostV {
    pub pid: PidHost,
    pub nombre: Seq<char>,
    pub ns_pid: Option<NsId>,
    pub pid_local: u32,
    pub cgroup: Option<Seq<char>>,
    pub mem_mb: u32,
}

pub open spec fn vista_opcion(o: Option<String>) -> Option<Seq<char>> {
    match o {
        Some(s) => Some(s@),
        None => None,
    }
}

impl View for ProcesoHost {
    type V = ProcHostV;

    open spec fn view(&self) -> ProcHostV {
        ProcHostV {
            pid: self.pid,
            nombre: self.nombre@,
            ns_pid: self.ns_pid,
            pid_local: self.pid_local,
            cgroup: vista_opcion(self.cgroup),
            mem_mb: self.mem_mb,
        }
    }
}

impl ProcesoHost {
    pub fn copia(&self) -> (r: ProcesoHost)
        ensures
            r@ == self@,
    {
        ProcesoHost {
            pid: self.pid,
            nombre: self.nombre.clone(),
            ns_pid: self.ns_pid,
            pid_local: self.pid_local,
            cgroup: match &self.cgroup {
                Some(c) => Some(c.clone()),
                None => None,
            },
            mem_mb: self.mem_mb,
        }
    }
}

/// Limits of a control group, and the memory its processes use.
/// `cpus_milesimas` is the CPU share in thousandths of a CPU.
#[derive(Clone, Copy, Debug)]
pub struct Cgroup {
    pub limite_mem_mb: u32,
    pub cpus_milesimas: u32,
    pub uso_mem_mb: u32,
}

#[derive(Debug)]
pub enum ErrorKernel {
    /// The out-of-memory killer killed the process. If it was pid 1 of its
    /// namespace, every process of that namespace went down with it.
    OomKill { pid: PidHost, pedido: u32, limite: u32, uso: u32, muertos: Vec<PidHost> },
    SinProceso(PidHost),
    ConexionRechazada(String),
    Panico,
}

pub enum ErrorKernelV {
    OomKill { pid: PidHost, pedido: u32, limite: u32, uso: u32, muertos: Seq<PidHost> },
    SinProceso(PidHost),
    ConexionRechazada(Seq<char>),
    Panico,
}

impl View for ErrorKernel {
    type V = ErrorKernelV;

    open spec fn view(&self) -> ErrorKernelV {
        match self {
            ErrorKernel::OomKill { pid, pedido, limite, uso, muertos } => ErrorKernelV::OomKill {
                pid: *pid,
                pedido: *pedido,
                limite: *limite,
                uso: *uso,
                muertos: muertos@,
            },
            ErrorKernel::SinProceso(p) => ErrorKernelV::SinProceso(*p),
            ErrorKernel::ConexionRechazada(d) => ErrorKernelV::ConexionRechazada(d@),
            ErrorKernel::Panico => ErrorKernelV::Panico,
        }
    }
}

/// The numerals of `s`, separated by commas.
pub open spec fn lista_decimal(s: Seq<u32>) -> Seq<char>
    decreases s.len(),
{
    if s.len() == 0 {
        Seq::empty()
    } else if s.len() == 1 {
        decimal(s[0] as nat)
    } else {
        lista_decimal(s.drop_last()) + ", "@ + decimal(s.last() as nat)
    }
}

/// How an error of the kernel reads.
pub open spec fn texto_error_kernel(e: ErrorKernelV) -> Seq<char> {
    match e {
        ErrorKernelV::OomKill { pid, pedido, limite, uso, muertos } => "OOM: PID "@ + decimal(pid as nat)
            + " pidió "@ + decimal(pedido as nat) + " MB (uso "@ + decimal(uso as nat) + " / límite "@ + decimal(
            limite as nat,
        ) + "); procesos eliminados: ["@ + lista_decimal(muertos) + "]"@,
        ErrorKernelV::SinProceso(p) => "no existe el proceso "@ + decimal(p as nat),
        ErrorKernelV::ConexionRechazada(d) => "conexión rechazada hacia "@ + d,
        ErrorKernelV::Panico => "kernel en pánico: no atiende syscalls"@,
    }
}

impl ErrorKernel {
    /// The error as text.
    pub fn texto(&self) -> (s: String)
        ensures
            s@ == texto_error_kernel(self@),
    {
        match self {
            ErrorKernel::OomKill { pid, pedido, limite, uso, muertos } => {
                let mut s = "OOM: PID ".to_owned();
                escribir_decimal(&mut s, *pid as u64);
                agregar(&mut s, " pidió ");
                escribir_decimal(&mut s, *pedido as u64);
                agregar(&mut s, " MB (uso ");
                escribir_decimal(&mut s, *uso as u64);
                agregar(&mut s, " / límite ");
                escribir_decimal(&mut s, *limite as u64);
                agregar(&mut s, "); procesos eliminados: [");
                let ghost pre = s@;
                let mut i: usize = 0;
                proof {
                    assert(muertos@.take(0) =~= Seq::<u32>::empty());
                    assert(s@ =~= pre + lista_decimal(muertos@.take(0)));
                }
                while i < muertos.len()
                    invariant
                        i <= muertos@.len(),
                        s@ == pre + lista_decimal(muertos@.take(i as int)),
                    decreases muertos@.len() - i,
                {
                    let ghost antes = s@;
                    if i > 0 {
                        agregar(&mut s, ", ");
                    }
                    escribir_decimal(&mut s, muertos[i] as u64);
                    proof {
                        let t = muertos@.take(i as int + 1);
                        assert(t.drop_last() =~= muertos@.take(i as int));
                        assert(t.last() == muertos@[i as int]);
                        if i == 0 {
                            assert(t.len() == 1);
                            assert(s@ =~= pre + lista_decimal(t));
                        } else {
                            assert(s@ =~= pre + lista_decimal(t));
                        }
                    }
                    i = i + 1;
                }
                proof {
                    assert(muertos@.take(i as int) =~= muertos@);
                }
                agregar(&mut s, "]");
                s
            },
            ErrorKernel::SinProceso(p) => {
                let mut s = "no existe el proceso ".to_owned();
                escribir_decimal(&mut s, *p as u64);
                s
            },
            ErrorKernel::ConexionRechazada(d) => {
                let mut s = "conexión rechazada hacia ".to_owned();
                agregar(&mut s, d.as_str());
                s
            },
            ErrorKernel::Panico => "kernel en pánico: no atiende syscalls".to_owned(),
        }
    }
}

/// Mathematical value of the kernel.
pub struct KernelV {
    pub version: &'static str,
    pub procs: Seq<ProcHostV>,
    pub sig_pid: PidHost,
    pub nss: Seq<NsV>,
    pub sig_ns: NsId,
    pub cgs: Map<Seq<char>, Cgroup>,
    pub mem_total: u32,
    pub sys: Map<Seq<char>, u64>,
    pub red: Map<Seq<char>, NsId>,
    pub sig_ip: u8,
    pub paquetes: u64,
    pub panico: bool,
}

pub struct Kernel {
    version: &'static str,
    procesos: Vec<ProcesoHost>,
    sig_pid: PidHost,
    namespaces: Vec<Namespace>,
    sig_ns: NsId,
    cgroups: Vec<(String, Cgroup)>,
    mem_total_mb: u32,
    syscalls: Vec<(String, u64)>,
    red: Vec<(String, NsId)>,
    sig_ip: u8,
    paquetes: u64,
    panico: bool,
}

pub open spec fn vista_procs(s: Seq<ProcesoHost>) -> Seq<ProcHostV> {
    s.map_values(|p: ProcesoHost| p@)
}

/// Position of the process `pid`, if it exists.
pub open spec fn buscar_pid(s: Seq<ProcHostV>, pid: PidHost) -> Option<int> {
    if exists|i: int| 0 <= i < s.len() && #[trigger] s[i].pid == pid {
        Some(choose|i: int| 0 <= i < s.len() && #[trigger] s[i].pid == pid)
    } else {
        None
    }
}

/// Position of the namespace `id`, if it exists.
pub open spec fn buscar_ns(s: Seq<NsV>, id: NsId) -> Option<int> {
    if exists|i: int| 0 <= i < s.len() && #[trigger] s[i].id == id {
        Some(choose|i: int| 0 <= i < s.len() && #[trigger] s[i].id == id)
    } else {
        None
    }
}

/// Processes seen from `vista`: all of them from the host (`None`), only
/// those of the namespace otherwise.
pub open spec fn vistos(s: Seq<ProcHostV>, vista: Option<NsId>) -> Seq<ProcHostV>
    decreases s.len(),
{
    if s.len() == 0 {
        s
    } else if vista is None || s.last().ns_pid == vista {
        vistos(s.drop_last(), vista).push(s.last())
    } else {
        vistos(s.drop_last(), vista)
    }
}

/// Pids of the processes of `s`, in order.
pub open spec fn pids(s: Seq<ProcHostV>) -> Seq<PidHost> {
    s.map_values(|p: ProcHostV| p.pid)
}

/// Processes of `s` whose pid is not in `vs`.
pub open spec fn sin_victimas(s: Seq<ProcHostV>, vs: Seq<PidHost>) -> Seq<ProcHostV>
    decreases s.len(),
{
    if s.len() == 0 {
        s
    } else if vs.contains(s.last().pid) {
        sin_victimas(s.drop_last(), vs)
    } else {
        sin_victimas(s.drop_last(), vs).push(s.last())
    }
}

/// Memory used by the processes of `s` in `vs` charged to control group `c`.
pub open spec fn liberado(s: Seq<ProcHostV>, vs: Seq<PidHost>, c: Seq<char>) -> nat
    decreases s.len(),
{
    if s.len() == 0 {
        0
    } else {
        liberado(s.drop_last(), vs, c) + (if vs.contains(s.last().pid) && s.last().cgroup == Some(c) {
            s.last().mem_mb as nat
        } else {
            0nat
        })
    }
}

/// `x - y`, or 0 when `y` is larger.
pub open spec fn resta_sat(x: u32, y: nat) -> u32 {
    if x >= y {
        (x - y) as u32
    } else {
        0
    }
}

/// Processes that go down when `pid` is killed: the whole namespace when it
/// is pid 1 of one, itself otherwise.
pub open spec fn victimas(k: KernelV, pid: PidHost) -> Seq<PidHost> {
    let p = k.procs[buscar_pid(k.procs, pid)->0];
    if p.ns_pid is Some && p.pid_local == 1 {
        pids(vistos(k.procs, p.ns_pid))
    } else {
        seq![pid]
    }
}

/// Killing `pid`: its victims leave, and the memory they used is given back
/// to their control groups. Returns the victims.
pub open spec fn matar_v(k: KernelV, pid: PidHost) -> (KernelV, Seq<PidHost>) {
    if buscar_pid(k.procs, pid) is None {
        (k, Seq::empty())
    } else {
        let vs = victimas(k, pid);
        (
            KernelV {
                procs: sin_victimas(k.procs, vs),
                cgs: Map::new(
                    |c: Seq<char>| k.cgs.dom().contains(c),
                    |c: Seq<char>|
                        Cgroup {
                            uso_mem_mb: resta_sat(k.cgs[c].uso_mem_mb, liberado(k.procs, vs, c)),
                            ..k.cgs[c]
                        },
                ),
                ..k
            },
            vs,
        )
    }
}

/// The kernel after counting one call made by `o`.
pub open spec fn tras_syscall(k: KernelV, o: Seq<char>) -> KernelV {
    KernelV { sys: k.sys.insert(o, (cuenta(k.sys, o) + 1) as u64), ..k }
}

/// Reserving `mb` for `pid` on behalf of `o`: charged to its control group
/// when it has one; above the limit of the group the out-of-memory killer
/// kills the process instead.
pub open spec fn reservar_v(k: KernelV, o: Seq<char>, pid: PidHost, mb: u32) -> (
    KernelV,
    Result<(), ErrorKernelV>,
) {
    if k.panico {
        (k, Err(ErrorKernelV::Panico))
    } else {
        let k1 = tras_syscall(k, o);
        match buscar_pid(k1.procs, pid) {
            None => (k1, Err(ErrorKernelV::SinProceso(pid))),
            Some(i) => {
                let p = k1.procs[i];
                let p1 = ProcHostV { mem_mb: (p.mem_mb + mb) as u32, ..p };
                match p.cgroup {
                    Some(c) => {
                        let g = k1.cgs[c];
                        if g.uso_mem_mb + mb > g.limite_mem_mb {
                            let (k2, muertos) = matar_v(k1, pid);
                            (
                                k2,
                                Err(
                                    ErrorKernelV::OomKill {
                                        pid,
                                        pedido: mb,
                                        limite: g.limite_mem_mb,
                                        uso: g.uso_mem_mb,
                                        muertos,
                                    },
                                ),
                            )
                        } else {
                            (
                                KernelV {
                                    procs: k1.procs.update(i, p1),
                                    cgs: k1.cgs.insert(
                                        c,
                                        Cgroup { uso_mem_mb: (g.uso_mem_mb + mb) as u32, ..g },
                                    ),
                                    ..k1
                                },
                                Ok(()),
                            )
                        }
                    },
                    None => (KernelV { procs: k1.procs.update(i, p1), ..k1 }, Ok(())),
                }
            },
        }
    }
}

/// Whether reserving `mb` for `pid` keeps every counter in range and finds
/// the control group of the process.
pub open spec fn reserva_admisible(k: KernelV, o: Seq<char>, pid: PidHost, mb: u32) -> bool {
    !k.panico ==> {
        &&& cuenta(k.sys, o) < u64::MAX
        &&& buscar_pid(k.procs, pid) is Some ==> {
            let p = k.procs[buscar_pid(k.procs, pid)->0];
            match p.cgroup {
                Some(c) => {
                    &&& k.cgs.dom().contains(c)
                    &&& k.cgs[c].uso_mem_mb + mb <= u32::MAX
                    &&& k.cgs[c].uso_mem_mb + mb <= k.cgs[c].limite_mem_mb ==> p.mem_mb + mb
                        <= u32::MAX
                },
                None => p.mem_mb + mb <= u32::MAX,
            }
        }
    }
}

/// Every call to the kernel goes through here and is counted by who made
/// it. While the kernel is in panic nothing works.
pub open spec fn syscall_v(k: KernelV, o: Seq<char>) -> (KernelV, Result<(), ErrorKernelV>) {
    if k.panico {
        (k, Err(ErrorKernelV::Panico))
    } else {
        (tras_syscall(k, o), Ok(()))
    }
}

pub open spec fn unshare_v(k: KernelV, o: Seq<char>, tipo: TipoNs) -> (KernelV, Result<NsId, ErrorKernelV>) {
    if k.panico {
        (k, Err(ErrorKernelV::Panico))
    } else {
        let k1 = tras_syscall(k, o);
        (
            KernelV {
                sig_ns: (k1.sig_ns + 1) as u64,
                nss: k1.nss.push(NsV { id: k1.sig_ns, tipo, sig_local: 1 }),
                ..k1
            },
            Ok(k1.sig_ns),
        )
    }
}

pub open spec fn crear_cgroup_v(
    k: KernelV,
    o: Seq<char>,
    nombre: Seq<char>,
    limite: u32,
    cpus_milesimas: u32,
) -> (KernelV, Result<(), ErrorKernelV>) {
    if k.panico {
        (k, Err(ErrorKernelV::Panico))
    } else {
        let k1 = tras_syscall(k, o);
        (
            KernelV {
                cgs: k1.cgs.insert(
                    nombre,
                    Cgroup { limite_mem_mb: limite, cpus_milesimas, uso_mem_mb: 0 },
                ),
                ..k1
            },
            Ok(()),
        )
    }
}

/// `clone`: a process, optionally inside a pid namespace and a control
/// group, with its pid on the host and the pid it sees inside its namespace.
/// A process that asks for memory gets it reserved right away.
pub open spec fn clone_v(
    k: KernelV,
    o: Seq<char>,
    nombre: Seq<char>,
    ns_pid: Option<NsId>,
    cgroup: Option<Seq<char>>,
    mem_mb: u32,
) -> (KernelV, Result<(PidHost, u32), ErrorKernelV>) {
    if k.panico {
        (k, Err(ErrorKernelV::Panico))
    } else {
        let k1 = tras_syscall(k, o);
        let pid = k1.sig_pid;
        let (local, nss) = match ns_pid {
            Some(ns) => {
                let j = buscar_ns(k1.nss, ns)->0;
                (k1.nss[j].sig_local, k1.nss.update(j, NsV { sig_local: (k1.nss[j].sig_local + 1) as u32, ..k1.nss[j] }))
            },
            None => (pid, k1.nss),
        };
        let k2 = KernelV {
            sig_pid: (pid + 1) as u32,
            nss,
            procs: k1.procs.push(ProcHostV { pid, nombre, ns_pid, pid_local: local, cgroup, mem_mb: 0 }),
            ..k1
        };
        if mem_mb > 0 {
            let (k3, r) = reservar_v(k2, o, pid, mem_mb);
            match r {
                Ok(_) => (k3, Ok((pid, local))),
                Err(e) => (k3, Err(e)),
            }
        } else {
            (k2, Ok((pid, local)))
        }
    }
}

/// Whether `clone` keeps every counter in range and finds the namespace
/// and the control group it needs.
pub open spec fn clone_admisible(
    k: KernelV,
    o: Seq<char>,
    ns_pid: Option<NsId>,
    cgroup: Option<Seq<char>>,
    mem_mb: u32,
) -> bool {
    !k.panico ==> {
        &&& cuenta(k.sys, o) + (if mem_mb > 0 { 2nat } else { 1nat }) <= u64::MAX
        &&& k.sig_pid < u32::MAX
        &&& match ns_pid {
            Some(ns) => buscar_ns(k.nss, ns) is Some && k.nss[buscar_ns(k.nss, ns)->0].sig_local < u32::MAX,
            None => true,
        }
        &&& mem_mb > 0 ==> match cgroup {
            Some(c) => {
                &&& k.cgs.dom().contains(c)
                &&& k.cgs[c].uso_mem_mb + mem_mb <= u32::MAX
            },
            None => true,
        }
    }
}

/// Address on the bridge for the `n`-th connection.
pub open spec fn ip_de(n: u8) -> Seq<char> {
    seq!['1', '7', '2', '.', '1', '8', '.', '0', '.'] + decimal(n as nat)
}

pub open spec fn conectar_v(k: KernelV, o: Seq<char>, ns_net: NsId) -> (KernelV, Result<Seq<char>, ErrorKernelV>) {
    if k.panico {
        (k, Err(ErrorKernelV::Panico))
    } else {
        let k1 = tras_syscall(k, o);
        let ip = ip_de(k1.sig_ip);
        (KernelV { sig_ip: (k1.sig_ip + 1) as u8, red: k1.red.insert(ip, ns_net), ..k1 }, Ok(ip))
    }
}

/// Text of a refused connection to `ip` on `puerto`.
pub open spec fn destino_de(ip: Seq<char>, puerto: u16) -> Seq<char> {
    ip + seq![':'] + decimal(puerto as nat)
}

/// Sending a packet over the bridge: request and answer go through the
/// network stack of the same kernel. Gives the network namespaces of both ends.
pub open spec fn enviar_v(k: KernelV, o: Seq<char>, ip_o: Seq<char>, ip_d: Seq<char>, puerto: u16) -> (
    KernelV,
    Result<(NsId, NsId), ErrorKernelV>,
) {
    if k.panico {
        (k, Err(ErrorKernelV::Panico))
    } else {
        let k1 = tras_syscall(k, o);
        if !k1.red.dom().contains(ip_d) {
            (k1, Err(ErrorKernelV::ConexionRechazada(destino_de(ip_d, puerto))))
        } else {
            (KernelV { paquetes: (k1.paquetes + 2) as u64, ..k1 }, Ok((k1.red[ip_o], k1.red[ip_d])))
        }
    }
}

/// What the kernel keeps from `k0` to `k1`: every control group and every
/// namespace of `k0` is still there.
pub open spec fn conserva(k0: KernelV, k1: KernelV) -> bool {
    &&& forall|c: Seq<char>| k0.cgs.dom().contains(c) ==> #[trigger] k1.cgs.dom().contains(c)
    &&& forall|id: NsId| buscar_ns(k0.nss, id) is Some ==> #[trigger] buscar_ns(k1.nss, id) is Some
}

pub proof fn lema_conserva_transitiva(k0: KernelV, k1: KernelV, k2: KernelV)
    requires
        conserva(k0, k1),
        conserva(k1, k2),
    ensures
        conserva(k0, k2),
{
    assert forall|id: NsId| buscar_ns(k0.nss, id) is Some implies #[trigger] buscar_ns(k2.nss, id) is Some by {
        assert(buscar_ns(k1.nss, id) is Some);
    }
}

/// Killing processes keeps every control group and namespace.
pub proof fn lema_conserva_matar(k: KernelV, pid: PidHost)
    ensures
        conserva(k, matar_v(k, pid).0),
{
}

/// Reserving memory keeps every control group and namespace.
pub proof fn lema_conserva_reservar(k: KernelV, o: Seq<char>, pid: PidHost, mb: u32)
    ensures
        conserva(k, reservar_v(k, o, pid, mb).0),
{
    if !k.panico {
        let k1 = tras_syscall(k, o);
        if let Some(i) = buscar_pid(k1.procs, pid) {
            lema_conserva_matar(k1, pid);
        }
    }
}

/// Creating a process keeps every control group and namespace.
pub proof fn lema_conserva_clone(
    k: KernelV,
    o: Seq<char>,
    nombre: Seq<char>,
    ns_pid: Option<NsId>,
    cgroup: Option<Seq<char>>,
    mem_mb: u32,
)
    requires
        ns_pid matches Some(ns) ==> buscar_ns(k.nss, ns) is Some,
    ensures
        conserva(k, clone_v(k, o, nombre, ns_pid, cgroup, mem_mb).0),
{
    if !k.panico {
        let k1 = tras_syscall(k, o);
        let pid = k1.sig_pid;
        let (local, nss) = match ns_pid {
            Some(ns) => {
                let j = buscar_ns(k1.nss, ns)->0;
                (k1.nss[j].sig_local, k1.nss.update(j, NsV { sig_local: (k1.nss[j].sig_local + 1) as u32, ..k1.nss[j] }))
            },
            None => (pid, k1.nss),
        };
        let k2 = KernelV {
            sig_pid: (pid + 1) as u32,
            nss,
            procs: k1.procs.push(ProcHostV { pid, nombre, ns_pid, pid_local: local, cgroup, mem_mb: 0 }),
            ..k1
        };
        assert forall|id: NsId| buscar_ns(k.nss, id) is Some implies #[trigger] buscar_ns(k2.nss, id) is Some by {
            let i = buscar_ns(k.nss, id)->0;
            assert(k2.nss.len() == k.nss.len());
            assert(k2.nss[i].id == id);
        }
        if mem_mb > 0 {
            lema_conserva_reservar(k2, o, pid, mem_mb);
            lema_conserva_transitiva(k, k2, reservar_v(k2, o, pid, mem_mb).0);
        }
    }
}

/// Creating a namespace keeps every control group and namespace.
pub proof fn lema_conserva_unshare(k: KernelV, o: Seq<char>, tipo: TipoNs)
    ensures
        conserva(k, unshare_v(k, o, tipo).0),
{
    if !k.panico {
        let k2 = unshare_v(k, o, tipo).0;
        assert forall|id: NsId| buscar_ns(k.nss, id) is Some implies #[trigger] buscar_ns(k2.nss, id) is Some by {
            let i = buscar_ns(k.nss, id)->0;
            assert(k2.nss[i].id == id);
        }
    }
}

proof fn lema_liberado_ninguno(s: Seq<ProcHostV>, vs: Seq<PidHost>, c: Seq<char>)
    requires
        forall|i: int| 0 <= i < s.len() ==> !vs.contains(#[trigger] s[i].pid),
    ensures
        liberado(s, vs, c) == 0,
    decreases s.len(),
{
    if s.len() > 0 {
        let r = s.drop_last();
        assert forall|i: int| 0 <= i < r.len() implies !vs.contains(#[trigger] r[i].pid) by {
            assert(r[i] == s[i]);
        }
        lema_liberado_ninguno(r, vs, c);
        assert(!vs.contains(s[s.len() - 1].pid));
    }
}

/// Killing a single process gives back to a control group exactly the
/// memory that process had in it.
pub proof fn lema_liberado_uno(s: Seq<ProcHostV>, i: int, c: Seq<char>)
    requires
        forall|a: int, b: int| 0 <= a < b < s.len() ==> s[a].pid < s[b].pid,
        0 <= i < s.len(),
    ensures
        liberado(s, seq![s[i].pid], c) == if s[i].cgroup == Some(c) {
            s[i].mem_mb as nat
        } else {
            0nat
        },
    decreases s.len(),
{
    let pid = s[i].pid;
    let vs = seq![pid];
    assert forall|x: PidHost| vs.contains(x) <==> x == pid by {
        if x == pid {
            assert(vs[0] == pid);
        }
    }
    let r = s.drop_last();
    if i == s.len() - 1 {
        assert forall|j: int| 0 <= j < r.len() implies !vs.contains(#[trigger] r[j].pid) by {
            assert(r[j] == s[j]);
            assert(s[j].pid < s[i].pid);
        }
        lema_liberado_ninguno(r, vs, c);
    } else {
        assert(r[i] == s[i]);
        assert forall|a: int, b: int| 0 <= a < b < r.len() implies r[a].pid < r[b].pid by {
            assert(r[a] == s[a] && r[b] == s[b]);
        }
        lema_liberado_uno(r, i, c);
        assert(s[i].pid < s[s.len() - 1].pid);
    }
}

/// Killing a process gives back to every control group the memory that its
/// victims had in it, and changes no limit. When the process is not pid 1
/// of a namespace, it is the only victim, and its own memory goes back to
/// its own control group, whatever the group holds otherwise.
pub proof fn ley_matar_devuelve_memoria(k: KernelV, pid: PidHost)
    requires
        valido(k),
        buscar_pid(k.procs, pid) is Some,
    ensures
        ({
            let p = k.procs[buscar_pid(k.procs, pid)->0];
            let (k2, vs) = matar_v(k, pid);
            &&& k2.cgs.dom() == k.cgs.dom()
            &&& forall|c: Seq<char>|
                #[trigger] k.cgs.dom().contains(c) ==> k2.cgs[c].uso_mem_mb == resta_sat(
                    k.cgs[c].uso_mem_mb,
                    liberado(k.procs, vs, c),
                ) && k2.cgs[c].limite_mem_mb == k.cgs[c].limite_mem_mb
            &&& !(p.ns_pid is Some && p.pid_local == 1) ==> {
                &&& vs == seq![pid]
                &&& forall|c: Seq<char>|
                    #[trigger] k.cgs.dom().contains(c) ==> k2.cgs[c].uso_mem_mb == if p.cgroup == Some(c) {
                        resta_sat(k.cgs[c].uso_mem_mb, p.mem_mb as nat)
                    } else {
                        k.cgs[c].uso_mem_mb
                    }
            }
        }),
{
    let i = buscar_pid(k.procs, pid)->0;
    let p = k.procs[i];
    let (k2, vs) = matar_v(k, pid);
    assert(k2.cgs.dom() =~= k.cgs.dom());
    if !(p.ns_pid is Some && p.pid_local == 1) {
        assert forall|c: Seq<char>| #[trigger] k.cgs.dom().contains(c) implies k2.cgs[c].uso_mem_mb == if p.cgroup
            == Some(c) {
            resta_sat(k.cgs[c].uso_mem_mb, p.mem_mb as nat)
        } else {
            k.cgs[c].uso_mem_mb
        } by {
            lema_liberado_uno(k.procs, i, c);
        }
    }
}

/// A reservation charged to control group `c` succeeds exactly when the
/// memory the group already uses plus the request fits in its limit, and
/// then the group uses that much more; otherwise the out-of-memory killer
/// answers, telling the request, the limit and the use. So a kernel whose
/// groups are all within their limits keeps them so.
pub proof fn ley_reserva_respeta_limite(k: KernelV, o: Seq<char>, pid: PidHost, mb: u32)
    requires
        valido(k),
    ensures
        ({
            let (k2, r) = reservar_v(k, o, pid, mb);
            &&& (forall|c: Seq<char>|
                #[trigger] k.cgs.dom().contains(c) ==> k.cgs[c].uso_mem_mb <= k.cgs[c].limite_mem_mb) ==> (forall|
                c: Seq<char>,
            | #[trigger] k2.cgs.dom().contains(c) ==> k2.cgs[c].uso_mem_mb <= k2.cgs[c].limite_mem_mb)
            &&& forall|c: Seq<char>|
                #[trigger] k.cgs.dom().contains(c) && !k.panico && buscar_pid(k.procs, pid) is Some && k.procs[buscar_pid(
                    k.procs,
                    pid,
                )->0].cgroup == Some(c) ==> {
                    &&& (r is Ok <==> k.cgs[c].uso_mem_mb + mb <= k.cgs[c].limite_mem_mb)
                    &&& r is Ok ==> k2.cgs[c].uso_mem_mb == k.cgs[c].uso_mem_mb + mb
                    &&& r is Err ==> r->Err_0 == (ErrorKernelV::OomKill {
                        pid,
                        pedido: mb,
                        limite: k.cgs[c].limite_mem_mb,
                        uso: k.cgs[c].uso_mem_mb,
                        muertos: matar_v(tras_syscall(k, o), pid).1,
                    })
                }
        }),
{
    let (k2, r) = reservar_v(k, o, pid, mb);
    let k1 = tras_syscall(k, o);
    assert(k1.procs == k.procs && k1.cgs == k.cgs);
    if (forall|c: Seq<char>| #[trigger] k.cgs.dom().contains(c) ==> k.cgs[c].uso_mem_mb <= k.cgs[c].limite_mem_mb) {
        if !k.panico && buscar_pid(k.procs, pid) is Some {
            let i = buscar_pid(k.procs, pid)->0;
            let p = k.procs[i];
            if let Some(c0) = p.cgroup {
                let g = k.cgs[c0];
                if g.uso_mem_mb + mb > g.limite_mem_mb {
                    let (k3, _) = matar_v(k1, pid);
                    assert(k3.cgs.dom() =~= k.cgs.dom());
                    assert forall|c: Seq<char>| #[trigger] k2.cgs.dom().contains(c) implies k2.cgs[c].uso_mem_mb
                        <= k2.cgs[c].limite_mem_mb by {
                        assert(k.cgs.dom().contains(c));
                    }
                } else {
                    assert forall|c: Seq<char>| #[trigger] k2.cgs.dom().contains(c) implies k2.cgs[c].uso_mem_mb
                        <= k2.cgs[c].limite_mem_mb by {
                        if c != c0 {
                            assert(k.cgs.dom().contains(c));
                        }
                    }
                }
            }
        }
    }
}

/// A reservation that succeeds charges the memory to the process itself:
/// its memory grows by the request (while it fits in 32 bits), and every other process stays as it
/// was.
pub proof fn ley_reserva_al_proceso(k: KernelV, o: Seq<char>, pid: PidHost, mb: u32)
    requires
        valido(k),
    ensures
        ({
            let (k2, r) = reservar_v(k, o, pid, mb);
            r is Ok ==> {
                let i = buscar_pid(k.procs, pid)->0;
                &&& buscar_pid(k.procs, pid) is Some
                &&& k2.procs.len() == k.procs.len()
                &&& k.procs[i].mem_mb + mb <= u32::MAX ==> k2.procs[i].mem_mb == k.procs[i].mem_mb + mb
                &&& k2.procs[i].pid == pid
                &&& forall|j: int| 0 <= j < k.procs.len() && j != i ==> #[trigger] k2.procs[j] == k.procs[j]
            }
        }),
{
    let k1 = tras_syscall(k, o);
    assert(k1.procs == k.procs && k1.cgs == k.cgs);
    if buscar_pid(k.procs, pid) is Some {
        let i = buscar_pid(k.procs, pid)->0;
        assert(k.procs[i].pid == pid);
    }
}

/// What holds of the kernel at every moment: pids and namespace ids in
/// increasing order, all below the next ones to give.
pub open spec fn valido(k: KernelV) -> bool {
    &&& forall|i: int, j: int| 0 <= i < j < k.procs.len() ==> k.procs[i].pid < k.procs[j].pid
    &&& forall|i: int| 0 <= i < k.procs.len() ==> #[trigger] k.procs[i].pid < k.sig_pid
    &&& forall|i: int, j: int| 0 <= i < j < k.nss.len() ==> k.nss[i].id < k.nss[j].id
    &&& forall|i: int| 0 <= i < k.nss.len() ==> #[trigger] k.nss[i].id < k.sig_ns
}

/// From the host every process is seen, with its real pid.
pub proof fn ley_host_ve_todo(s: Seq<ProcHostV>)
    ensures
        vistos(s, None) == s,
    decreases s.len(),
{
    if s.len() > 0 {
        ley_host_ve_todo(s.drop_last());
        assert(s.drop_last().push(s.last()) =~= s);
    }
}

/// What a namespace sees is processes of the host that live in it.
pub proof fn lema_vistos_de(s: Seq<ProcHostV>, ns: NsId)
    ensures
        forall|i: int|
            0 <= i < vistos(s, Some(ns)).len() ==> (#[trigger] vistos(s, Some(ns))[i]).ns_pid == Some(ns)
                && s.contains(vistos(s, Some(ns))[i]),
    decreases s.len(),
{
    if s.len() > 0 {
        let r = s.drop_last();
        lema_vistos_de(r, ns);
        let v = vistos(s, Some(ns));
        assert forall|i: int| 0 <= i < v.len() implies (#[trigger] v[i]).ns_pid == Some(ns) && s.contains(v[i]) by {
            if i < vistos(r, Some(ns)).len() {
                assert(v[i] == vistos(r, Some(ns))[i]);
                let j = choose|j: int| 0 <= j < r.len() && r[j] == v[i];
                assert(s[j] == r[j]);
            } else {
                assert(v[i] == s.last());
                assert(s[s.len() - 1] == s.last());
            }
        }
    }
}

/// What a namespace sees is exactly its own processes: every process seen
/// lives in it, every process that lives in it is seen, and in the host's
/// order.
pub proof fn ley_ps_de_un_namespace(s: Seq<ProcHostV>, ns: NsId)
    ensures
        forall|i: int|
            0 <= i < vistos(s, Some(ns)).len() ==> (#[trigger] vistos(s, Some(ns))[i]).ns_pid == Some(ns) && s.contains(
                vistos(s, Some(ns))[i],
            ),
        forall|i: int| 0 <= i < s.len() && (#[trigger] s[i]).ns_pid == Some(ns) ==> vistos(s, Some(ns)).contains(s[i]),
        vistos(s, Some(ns)).len() <= s.len(),
    decreases s.len(),
{
    lema_vistos_de(s, ns);
    if s.len() > 0 {
        let r = s.drop_last();
        ley_ps_de_un_namespace(r, ns);
        let v = vistos(s, Some(ns));
        let vr = vistos(r, Some(ns));
        assert forall|i: int| 0 <= i < s.len() && (#[trigger] s[i]).ns_pid == Some(ns) implies v.contains(s[i]) by {
            if i < r.len() {
                assert(r[i] == s[i]);
                assert(vr.contains(r[i]));
                let j = choose|j: int| 0 <= j < vr.len() && vr[j] == r[i];
                assert(v[j] == vr[j]);
            } else {
                assert(v[v.len() - 1] == s.last());
            }
        }
    }
}

/// A process whose pid is not among the victims stays.
pub proof fn lema_queda(s: Seq<ProcHostV>, vs: Seq<PidHost>, i: int)
    requires
        0 <= i < s.len(),
        !vs.contains(s[i].pid),
    ensures
        sin_victimas(s, vs).contains(s[i]),
    decreases s.len(),
{
    let r = s.drop_last();
    if i < s.len() - 1 {
        assert(r[i] == s[i]);
        lema_queda(r, vs, i);
        let j = choose|j: int| 0 <= j < sin_victimas(r, vs).len() && sin_victimas(r, vs)[j] == s[i];
        if !vs.contains(s.last().pid) {
            assert(sin_victimas(s, vs)[j] == s[i]);
        }
    } else {
        assert(s.last() == s[i]);
        assert(sin_victimas(s, vs)[sin_victimas(r, vs).len() as int] == s[i]);
    }
}

/// While the kernel is in panic every operation is refused with `Panico`
/// and nothing changes: the shared kernel is a single point of failure.
pub proof fn ley_panico(
    k: KernelV,
    o: Seq<char>,
    pid: PidHost,
    mb: u32,
    tipo: TipoNs,
    nombre: Seq<char>,
    ns: Option<NsId>,
    cg: Option<Seq<char>>,
    ip: Seq<char>,
    ip_d: Seq<char>,
    puerto: u16,
    ns_net: NsId,
)
    requires
        k.panico,
    ensures
        syscall_v(k, o) == (k, Err::<(), ErrorKernelV>(ErrorKernelV::Panico)),
        reservar_v(k, o, pid, mb) == (k, Err::<(), ErrorKernelV>(ErrorKernelV::Panico)),
        unshare_v(k, o, tipo) == (k, Err::<NsId, ErrorKernelV>(ErrorKernelV::Panico)),
        clone_v(k, o, nombre, ns, cg, mb) == (k, Err::<(PidHost, u32), ErrorKernelV>(ErrorKernelV::Panico)),
        crear_cgroup_v(k, o, nombre, mb, mb) == (k, Err::<(), ErrorKernelV>(ErrorKernelV::Panico)),
        conectar_v(k, o, ns_net) == (k, Err::<Seq<char>, ErrorKernelV>(ErrorKernelV::Panico)),
        enviar_v(k, o, ip, ip_d, puerto) == (k, Err::<(NsId, NsId), ErrorKernelV>(ErrorKernelV::Panico)),
{
}

/// Every process created first in a new pid namespace sees itself as pid
/// 1, while on the host it gets the next pid, above all others: two such
/// processes in two namespaces are both pid 1 inside and different on the
/// host.
pub proof fn ley_pid_1(k: KernelV, o: Seq<char>, o2: Seq<char>, nombre: Seq<char>, cg: Option<Seq<char>>, mem_mb: u32)
    requires
        valido(k),
        !k.panico,
    ensures
        ({
            let (k1, r) = unshare_v(k, o, TipoNs::Pid);
            let (k2, r2) = clone_v(k1, o2, nombre, Some(k.sig_ns), cg, mem_mb);
            &&& r == Ok::<NsId, ErrorKernelV>(k.sig_ns)
            &&& mem_mb == 0 ==> r2 is Ok
            &&& r2 matches Ok((h, l)) ==> l == 1 && h == k.sig_pid && forall|i: int|
                0 <= i < k.procs.len() ==> #[trigger] k.procs[i].pid < h
        }),
{
    let k1 = unshare_v(k, o, TipoNs::Pid).0;
    let n0 = k.nss.len() as int;
    assert(k1.nss[n0].id == k.sig_ns);
    assert(buscar_ns(k1.nss, k.sig_ns) == Some(n0)) by {
        let j = buscar_ns(k1.nss, k.sig_ns)->0;
        if j < n0 {
            assert(k1.nss[j] == k.nss[j]);
        }
    }
}

/// The out-of-memory killer only hits the group of the process that went
/// over its limit: every process outside its pid namespace (outside the
/// process itself, when it is not pid 1 of a namespace) stays, and the
/// process is gone.
pub proof fn ley_oom_solo_su_grupo(k: KernelV, o: Seq<char>, pid: PidHost, mb: u32)
    requires
        valido(k),
    ensures
        ({
            let (k2, r) = reservar_v(k, o, pid, mb);
            r matches Err(ErrorKernelV::OomKill { .. }) ==> {
                let p = k.procs[buscar_pid(k.procs, pid)->0];
                &&& forall|i: int|
                    0 <= i < k.procs.len() && #[trigger] k.procs[i].pid != pid && (p.ns_pid is Some && p.pid_local
                        == 1 ==> k.procs[i].ns_pid != p.ns_pid) ==> k2.procs.contains(k.procs[i])
                &&& forall|i: int| 0 <= i < k2.procs.len() ==> #[trigger] k2.procs[i].pid != pid
            }
        }),
{
    let (k2, r) = reservar_v(k, o, pid, mb);
    if r matches Err(ErrorKernelV::OomKill { .. }) {
        let k1 = tras_syscall(k, o);
        let i0 = buscar_pid(k.procs, pid)->0;
        let p = k.procs[i0];
        let vs = victimas(k1, pid);
        assert(k2.procs == sin_victimas(k.procs, vs));
        assert(vs.contains(pid)) by {
            if p.ns_pid is Some && p.pid_local == 1 {
                lema_vistos_de(k.procs, p.ns_pid->0);
                lema_vistos_contiene(k.procs, p.ns_pid, i0);
                let j = choose|j: int| 0 <= j < vistos(k.procs, p.ns_pid).len() && vistos(k.procs, p.ns_pid)[j] == p;
                assert(pids(vistos(k.procs, p.ns_pid))[j] == pid);
            } else {
                assert(vs[0] == pid);
            }
        }
        assert forall|i: int|
            0 <= i < k.procs.len() && #[trigger] k.procs[i].pid != pid && (p.ns_pid is Some && p.pid_local == 1
                ==> k.procs[i].ns_pid != p.ns_pid) implies k2.procs.contains(k.procs[i]) by {
            assert(!vs.contains(k.procs[i].pid)) by {
                if p.ns_pid is Some && p.pid_local == 1 {
                    lema_vistos_de(k.procs, p.ns_pid->0);
                    if vs.contains(k.procs[i].pid) {
                        let j = choose|j: int| 0 <= j < vs.len() && vs[j] == k.procs[i].pid;
                        let w = vistos(k.procs, p.ns_pid)[j];
                        assert(w.pid == k.procs[i].pid);
                        assert(k.procs.contains(w));
                        let q = choose|q: int| 0 <= q < k.procs.len() && k.procs[q] == w;
                        if q < i {
                            assert(k.procs[q].pid < k.procs[i].pid);
                        } else if q > i {
                            assert(k.procs[i].pid < k.procs[q].pid);
                        }
                    }
                } else {
                    assert(vs =~= seq![pid]);
                }
            }
            lema_queda(k.procs, vs, i);
        }
        lema_fuera(k.procs, vs, pid);
    }
}

/// A process created by a namespace is among what it sees.
proof fn lema_vistos_contiene(s: Seq<ProcHostV>, vista: Option<NsId>, i: int)
    requires
        0 <= i < s.len(),
        vista is None || s[i].ns_pid == vista,
    ensures
        vistos(s, vista).contains(s[i]),
    decreases s.len(),
{
    let r = s.drop_last();
    if i < s.len() - 1 {
        assert(r[i] == s[i]);
        lema_vistos_contiene(r, vista, i);
        let j = choose|j: int| 0 <= j < vistos(r, vista).len() && vistos(r, vista)[j] == s[i];
        if vista is None || s.last().ns_pid == vista {
            assert(vistos(s, vista)[j] == s[i]);
        }
    } else {
        assert(s.last() == s[i]);
        assert(vistos(s, vista)[vistos(r, vista).len() as int] == s[i]);
    }
}

/// No victim stays.
proof fn lema_fuera(s: Seq<ProcHostV>, vs: Seq<PidHost>, pid: PidHost)
    requires
        vs.contains(pid),
    ensures
        forall|i: int| 0 <= i < sin_victimas(s, vs).len() ==> #[trigger] sin_victimas(s, vs)[i].pid != pid,
    decreases s.len(),
{
    if s.len() > 0 {
        lema_fuera(s.drop_last(), vs, pid);
    }
}

/// Entries in strictly increasing order of their texts.
pub open spec fn ordenada<V>(s: Seq<(Seq<char>, V)>) -> bool {
    forall|i: int, j: int| 0 <= i < j < s.len() ==> texto_menor(s[i].0, s[j].0)
}

pub proof fn lema_ordenada_unicas<V>(s: Seq<(Seq<char>, V)>)
    requires
        ordenada(s),
    ensures
        claves_unicas(s),
{
    assert forall|i: int, j: int| 0 <= i < j < s.len() implies s[i].0 != s[j].0 by {
        lema_texto_orden(s[i].0, s[j].0, s[j].0);
    }
}

/// Counts one more call by `o` in an ordered list of counters.
fn incrementar(v: &mut Vec<(String, u64)>, o: &str)
    requires
        ordenada(vista_lista(old(v)@)),
        cuenta(mapa_de(vista_lista(old(v)@)), o@) < u64::MAX,
    ensures
        ordenada(vista_lista(final(v)@)),
        mapa_de(vista_lista(final(v)@)) == mapa_de(vista_lista(old(v)@)).insert(
            o@,
            (cuenta(mapa_de(vista_lista(old(v)@)), o@) + 1) as u64,
        ),
{
    let ghost s0 = vista_lista(v@);
    proof {
        lema_ordenada_unicas(s0);
        lema_mapa_de(s0);
    }
    match posicion(v, o) {
        Some(i) => {
            let c = v[i].1;
            proof {
                assert(s0[i as int] == (v@[i as int].0@, c));
                assert(mapa_de(s0)[o@] == c);
            }
            let nombre = v[i].0.clone();
            v.set(i, (nombre, c + 1));
            proof {
                let s1 = vista_lista(v@);
                assert(s1 =~= s0.update(i as int, (o@, (c + 1) as u64)));
                lema_mapa_actualizar(s0, i as int, (c + 1) as u64);
                assert(ordenada(s1));
            }
        },
        None => {
            let mut j: usize = 0;
            while j < v.len() && !menor(o, v[j].0.as_str())
                invariant
                    j <= v@.len(),
                    vista_lista(v@) == s0,
                    forall|q: int| 0 <= q < j ==> texto_menor(s0[q].0, o@),
                    forall|q: int| 0 <= q < s0.len() ==> s0[q].0 != o@,
                decreases v@.len() - j,
            {
                proof {
                    lema_texto_orden(s0[j as int].0, o@, o@);
                }
                j = j + 1;
            }
            v.insert(j, (o.to_owned(), 1));
            proof {
                let s1 = vista_lista(v@);
                assert(s1 =~= s0.insert(j as int, (o@, 1u64)));
                assert(cuenta(mapa_de(s0), o@) == 0) by {
                    if mapa_de(s0).dom().contains(o@) {
                        let q = choose|q: int| 0 <= q < s0.len() && s0[q].0 == o@;
                    }
                }
                assert forall|a: int, b: int| 0 <= a < b < s1.len() implies texto_menor(s1[a].0, s1[b].0) by {
                    if b < j {
                    } else if b == j {
                    } else if a < j {
                        assert(texto_menor(s0[a].0, o@));
                        assert(texto_menor(o@, s0[j as int].0));
                        lema_texto_orden(s0[a].0, o@, s0[j as int].0);
                        if b - 1 > j {
                            lema_texto_orden(s0[a].0, s0[j as int].0, s0[b - 1].0);
                        }
                    } else if a == j {
                        assert(texto_menor(o@, s0[j as int].0));
                        if b - 1 > j {
                            lema_texto_orden(o@, s0[j as int].0, s0[b - 1].0);
                        }
                    } else {
                    }
                }
                lema_mapa_insertar(s0, j as int, o@, 1u64);
            }
        },
    }
}

/// An outcome of the kernel, with its error as a value.
pub open spec fn res_v<T, U>(r: Result<T, ErrorKernel>, f: spec_fn(T) -> U) -> Result<U, ErrorKernelV> {
    match r {
        Ok(x) => Ok(f(x)),
        Err(e) => Err(e@),
    }
}

/// Whether `v` holds `x`.
fn contiene(v: &Vec<PidHost>, x: PidHost) -> (b: bool)
    ensures
        b == v@.contains(x),
{
    let mut i: usize = 0;
    while i < v.len()
        invariant
            i <= v@.len(),
            forall|j: int| 0 <= j < i ==> v@[j] != x,
        decreases v@.len() - i,
    {
        if v[i] == x {
            proof {
                assert(v@[i as int] == x);
            }
            return true;
        }
        i = i + 1;
    }
    false
}

proof fn lema_sin_victimas(s: Seq<ProcHostV>, vs: Seq<PidHost>, sig: PidHost)
    requires
        forall|i: int, j: int| 0 <= i < j < s.len() ==> s[i].pid < s[j].pid,
        forall|i: int| 0 <= i < s.len() ==> #[trigger] s[i].pid < sig,
    ensures
        forall|i: int, j: int| 0 <= i < j < sin_victimas(s, vs).len() ==> sin_victimas(s, vs)[i].pid < sin_victimas(s, vs)[j].pid,
        forall|i: int| 0 <= i < sin_victimas(s, vs).len() ==> exists|j: int| 0 <= j < s.len() && #[trigger] sin_victimas(s, vs)[i] == s[j],
        forall|i: int| 0 <= i < sin_victimas(s, vs).len() ==> #[trigger] sin_victimas(s, vs)[i].pid < sig,
    decreases s.len(),
{
    if s.len() > 0 {
        let r = s.drop_last();
        lema_sin_victimas(r, vs, sig);
        let t = sin_victimas(r, vs);
        assert forall|i: int| 0 <= i < t.len() implies exists|j: int| 0 <= j < s.len() && #[trigger] t[i] == s[j] by {
            let j = choose|j: int| 0 <= j < r.len() && t[i] == r[j];
            assert(s[j] == r[j]);
        }
        if !vs.contains(s.last().pid) {
            let u = t.push(s.last());
            assert forall|i: int, j: int| 0 <= i < j < u.len() implies u[i].pid < u[j].pid by {
                if j == t.len() {
                    let q = choose|q: int| 0 <= q < r.len() && t[i] == r[q];
                    assert(s[q] == r[q]);
                }
            }
            assert forall|i: int| 0 <= i < u.len() implies exists|j: int| 0 <= j < s.len() && #[trigger] u[i] == s[j] by {
                if i == t.len() {
                    assert(u[i] == s[s.len() - 1]);
                } else {
                    let q = choose|q: int| 0 <= q < s.len() && t[i] == s[q];
                    assert(u[i] == t[i]);
                }
            }
            assert forall|i: int| 0 <= i < u.len() implies #[trigger] u[i].pid < sig by {
                if i == t.len() {
                    assert(u[i] == s[s.len() - 1]);
                } else {
                    assert(u[i] == t[i]);
                }
            }
        }
    }
}

pub open spec fn opcion_texto(o: Option<&str>) -> Option<Seq<char>> {
    match o {
        Some(s) => Some(s@),
        None => None,
    }
}

proof fn lema_buscar_pid_ultimo(s: Seq<ProcHostV>, pid: PidHost)
    requires
        s.len() > 0,
        s.last().pid == pid,
        forall|i: int, j: int| 0 <= i < j < s.len() ==> s[i].pid < s[j].pid,
    ensures
        buscar_pid(s, pid) == Some(s.len() - 1),
{
    let c = choose|c: int| 0 <= c < s.len() && #[trigger] s[c].pid == pid;
    assert(s[s.len() - 1].pid == pid);
    if c < s.len() - 1 {
        assert(s[c].pid < s[s.len() - 1].pid);
    }
}

/// Memory used by all the processes of `s`.
pub open spec fn memoria_usada(s: Seq<ProcHostV>) -> nat
    decreases s.len(),
{
    if s.len() == 0 {
        0
    } else {
        memoria_usada(s.drop_last()) + s.last().mem_mb as nat
    }
}

proof fn lema_memoria_prefijo(s: Seq<ProcHostV>, k: int)
    requires
        0 <= k <= s.len(),
    ensures
        memoria_usada(s.take(k)) <= memoria_usada(s),
    decreases s.len(),
{
    if k < s.len() {
        assert(s.drop_last().take(k) =~= s.take(k));
        lema_memoria_prefijo(s.drop_last(), k);
    } else {
        assert(s.take(k) =~= s);
    }
}

/// The host process `pid` of the system, with the memory it uses.
pub open spec fn proceso_del_sistema(pid: PidHost, nombre: Seq<char>, mem_mb: u32) -> ProcHostV {
    ProcHostV { pid, nombre, ns_pid: None, pid_local: pid, cgroup: None, mem_mb }
}

/// The kernel right after booting: the system processes are there, their
/// creation and memory counted as calls of the host, and the pid counter
/// set to where a host that has been running for a while would be.
pub open spec fn arranque_v(mem_total: u32) -> KernelV {
    KernelV {
        version: "6.8.0-generic",
        procs: seq![
            proceso_del_sistema(1, "systemd"@, 12),
            proceso_del_sistema(2, "sshd"@, 6),
            proceso_del_sistema(3, "dockerd"@, 40),
        ],
        sig_pid: 1040,
        nss: Seq::empty(),
        sig_ns: 4026532200,
        cgs: Map::empty(),
        mem_total,
        sys: map!["host"@ => 6u64],
        red: Map::empty(),
        sig_ip: 2,
        paquetes: 0,
        panico: false,
    }
}

impl Kernel {
    pub closed spec fn procs(&self) -> Seq<ProcHostV> {
        vista_procs(self.procesos@)
    }

    pub closed spec fn vista(&self) -> KernelV {
        KernelV {
            version: self.version,
            procs: self.procs(),
            sig_pid: self.sig_pid,
            nss: self.namespaces@.map_values(
                |n: Namespace| NsV { id: n.id, tipo: n.tipo, sig_local: n.sig_pid_local },
            ),
            sig_ns: self.sig_ns,
            cgs: mapa_de(vista_lista(self.cgroups@)),
            mem_total: self.mem_total_mb,
            sys: mapa_de(vista_lista(self.syscalls@)),
            red: mapa_de(vista_lista(self.red@)),
            sig_ip: self.sig_ip,
            paquetes: self.paquetes,
            panico: self.panico,
        }
    }

    /// Calls counted per caller, in the order of the callers' names.
    pub closed spec fn lista_syscalls(&self) -> Seq<(Seq<char>, u64)> {
        vista_lista(self.syscalls@)
    }

    pub closed spec fn wf(&self) -> bool {
        let v = self.vista();
        &&& forall|i: int, j: int| 0 <= i < j < v.procs.len() ==> v.procs[i].pid < v.procs[j].pid
        &&& forall|i: int| 0 <= i < v.procs.len() ==> #[trigger] v.procs[i].pid < v.sig_pid
        &&& forall|i: int, j: int| 0 <= i < j < v.nss.len() ==> v.nss[i].id < v.nss[j].id
        &&& forall|i: int| 0 <= i < v.nss.len() ==> #[trigger] v.nss[i].id < v.sig_ns
        &&& claves_unicas(vista_lista(self.cgroups@))
        &&& claves_unicas(vista_lista(self.red@))
        &&& ordenada(vista_lista(self.syscalls@))
    }

    /// A well-formed kernel is in a valid state.
    pub proof fn lema_valido(&self)
        requires
            self.wf(),
        ensures
            valido(self.vista()),
    {
    }

    /// The list of counters stands for the map of calls of the kernel.
    pub proof fn lema_lista_syscalls(&self)
        requires
            self.wf(),
        ensures
            ordenada(self.lista_syscalls()),
            mapa_de(self.lista_syscalls()) == self.vista().sys,
    {
    }

    fn pos_pid(&self, pid: PidHost) -> (r: Option<usize>)
        requires
            self.wf(),
        ensures
            match r {
                Some(i) => buscar_pid(self.vista().procs, pid) == Some(i as int),
                None => buscar_pid(self.vista().procs, pid) is None,
            },
    {
        let ghost s = self.vista().procs;
        let mut i: usize = 0;
        while i < self.procesos.len()
            invariant
                i <= s.len(),
                s == self.vista().procs,
                s.len() == self.procesos@.len(),
                forall|a: int, b: int| 0 <= a < b < s.len() ==> s[a].pid < s[b].pid,
                forall|j: int| 0 <= j < i ==> #[trigger] s[j].pid != pid,
            decreases s.len() - i,
        {
            if self.procesos[i].pid == pid {
                proof {
                    assert(s[i as int].pid == pid);
                    let c = choose|c: int| 0 <= c < s.len() && #[trigger] s[c].pid == pid;
                    if c < i {
                        assert(s[c].pid < s[i as int].pid);
                    } else if c > i {
                        assert(s[i as int].pid < s[c].pid);
                    }
                }
                return Some(i);
            }
            i = i + 1;
        }
        None
    }

    fn pos_ns(&self, id: NsId) -> (r: Option<usize>)
        requires
            self.wf(),
        ensures
            match r {
                Some(i) => buscar_ns(self.vista().nss, id) == Some(i as int),
                None => buscar_ns(self.vista().nss, id) is None,
            },
    {
        let ghost s = self.vista().nss;
        let mut i: usize = 0;
        while i < self.namespaces.len()
            invariant
                i <= s.len(),
                s == self.vista().nss,
                s.len() == self.namespaces@.len(),
                forall|a: int, b: int| 0 <= a < b < s.len() ==> s[a].id < s[b].id,
                forall|j: int| 0 <= j < i ==> #[trigger] s[j].id != id,
            decreases s.len() - i,
        {
            if self.namespaces[i].id == id {
                proof {
                    assert(s[i as int].id == id);
                    let c = choose|c: int| 0 <= c < s.len() && #[trigger] s[c].id == id;
                    if c < i {
                        assert(s[c].id < s[i as int].id);
                    } else if c > i {
                        assert(s[i as int].id < s[c].id);
                    }
                }
                return Some(i);
            }
            i = i + 1;
        }
        None
    }

    fn pids_vistos(&self, ns: Option<NsId>) -> (r: Vec<PidHost>)
        ensures
            r@ == pids(vistos(self.vista().procs, ns)),
    {
        let ghost s = self.vista().procs;
        let mut r: Vec<PidHost> = Vec::new();
        let mut i: usize = 0;
        while i < self.procesos.len()
            invariant
                i <= s.len(),
                s == self.vista().procs,
                s.len() == self.procesos@.len(),
                r@ == pids(vistos(s.take(i as int), ns)),
            decreases s.len() - i,
        {
            proof {
                assert(s.take(i as int + 1).drop_last() =~= s.take(i as int));
                assert(s.take(i as int + 1).last() == s[i as int]);
                assert(s[i as int] == self.procesos@[i as int]@);
            }
            if ns.is_none() || self.procesos[i].ns_pid == ns {
                r.push(self.procesos[i].pid);
                proof {
                    assert(r@ =~= pids(vistos(s.take(i as int + 1), ns)));
                }
            }
            i = i + 1;
        }
        proof {
            assert(s.take(i as int) =~= s);
        }
        r
    }

    fn liberado_de(procesos: &Vec<ProcesoHost>, vs: &Vec<PidHost>, c: &String) -> (r: u128)
        ensures
            r == liberado(vista_procs(procesos@), vs@, c@),
    {
        let ghost s = vista_procs(procesos@);
        let mut r: u128 = 0;
        let mut i: usize = 0;
        while i < procesos.len()
            invariant
                i <= s.len(),
                s == vista_procs(procesos@),
                s.len() == procesos@.len(),
                r == liberado(s.take(i as int), vs@, c@),
                r <= i * (u32::MAX as int),
            decreases s.len() - i,
        {
            proof {
                assert(s.take(i as int + 1).drop_last() =~= s.take(i as int));
                assert(s.take(i as int + 1).last() == s[i as int]);
                assert(s[i as int] == procesos@[i as int]@);
                assert((i + 1) * (u32::MAX as int) == i * (u32::MAX as int) + u32::MAX) by (nonlinear_arith);
                assert(i * (u32::MAX as int) <= usize::MAX as int * (u32::MAX as int)) by (nonlinear_arith)
                    requires i <= usize::MAX;
                assert(usize::MAX as int * (u32::MAX as int) < u128::MAX as int) by (nonlinear_arith)
                    requires usize::MAX <= u64::MAX;
            }
            let p = &procesos[i];
            let cuenta_aqui = match &p.cgroup {
                Some(x) => *x == *c,
                None => false,
            };
            if cuenta_aqui && contiene(vs, p.pid) {
                r = r + p.mem_mb as u128;
            }
            i = i + 1;
        }
        proof {
            assert(s.take(i as int) =~= s);
        }
        r
    }

    /// Gives back to each control group the memory that the victims `vs`
    /// of `procesos` used in it.
    fn descontar(cgroups: &mut Vec<(String, Cgroup)>, procesos: &Vec<ProcesoHost>, vs: &Vec<PidHost>)
        requires
            claves_unicas(vista_lista(old(cgroups)@)),
        ensures
            claves_unicas(vista_lista(final(cgroups)@)),
            mapa_de(vista_lista(final(cgroups)@)) == Map::new(
                |x: Seq<char>| mapa_de(vista_lista(old(cgroups)@)).dom().contains(x),
                |x: Seq<char>|
                    Cgroup {
                        uso_mem_mb: resta_sat(
                            mapa_de(vista_lista(old(cgroups)@))[x].uso_mem_mb,
                            liberado(vista_procs(procesos@), vs@, x),
                        ),
                        ..mapa_de(vista_lista(old(cgroups)@))[x]
                    },
            ),
    {
        let ghost g0 = vista_lista(cgroups@);
        let ghost ps = vista_procs(procesos@);
        let mut c: usize = 0;
        while c < cgroups.len()
            invariant
                c <= g0.len(),
                ps == vista_procs(procesos@),
                cgroups@.len() == g0.len(),
                forall|q: int| 0 <= q < g0.len() ==> #[trigger] vista_lista(cgroups@)[q] == if q < c {
                    (g0[q].0, Cgroup { uso_mem_mb: resta_sat(g0[q].1.uso_mem_mb, liberado(ps, vs@, g0[q].0)), ..g0[q].1 })
                } else {
                    g0[q]
                },
            decreases g0.len() - c,
        {
            let ghost antes = vista_lista(cgroups@);
            proof {
                assert(antes[c as int] == g0[c as int]);
            }
            let clave = &cgroups[c].0;
            proof {
                assert(antes[c as int].0 == clave@);
            }
            let lib = Self::liberado_de(procesos, vs, clave);
            proof {
                assert(lib == liberado(ps, vs@, g0[c as int].0));
            }
            let g = cgroups[c].1;
            let uso = if g.uso_mem_mb as u128 >= lib {
                g.uso_mem_mb - lib as u32
            } else {
                0
            };
            let n = cgroups[c].0.clone();
            cgroups.set(c, (n, Cgroup { uso_mem_mb: uso, ..g }));
            proof {
                assert(antes[c as int] == (cgroups@[c as int].0@, g));
                assert(vista_lista(cgroups@) =~= antes.update(c as int, (g0[c as int].0, Cgroup { uso_mem_mb: uso, ..g })));
                assert forall|q: int| 0 <= q < g0.len() implies #[trigger] vista_lista(cgroups@)[q] == if q < c + 1 {
                    (g0[q].0, Cgroup { uso_mem_mb: resta_sat(g0[q].1.uso_mem_mb, liberado(ps, vs@, g0[q].0)), ..g0[q].1 })
                } else {
                    g0[q]
                } by {
                    if q != c {
                        assert(vista_lista(cgroups@)[q] == antes[q]);
                    } else {
                        assert(lib == liberado(ps, vs@, g0[q].0));
                        assert(g == g0[q].1);
                        assert(uso == resta_sat(g.uso_mem_mb, lib as nat));
                    }
                }
            }
            c = c + 1;
        }
        proof {
            let g1 = vista_lista(cgroups@);
            let k0cgs = mapa_de(g0);
            let m = Map::new(
                |x: Seq<char>| k0cgs.dom().contains(x),
                |x: Seq<char>|
                    Cgroup {
                        uso_mem_mb: resta_sat(k0cgs[x].uso_mem_mb, liberado(ps, vs@, x)),
                        ..k0cgs[x]
                    },
            );
            lema_mapa_de(g0);
            assert(claves_unicas(g1)) by {
                assert forall|a: int, b: int| 0 <= a < b < g1.len() implies g1[a].0 != g1[b].0 by {
                    assert(g1[a].0 == g0[a].0);
                    assert(g1[b].0 == g0[b].0);
                }
            }
            assert(g1.len() == g0.len());
            assert forall|q: int| 0 <= q < g1.len() implies #[trigger] m.dom().contains(g1[q].0) && m[g1[q].0] == g1[q].1 by {
                assert(g1[q].0 == g0[q].0);
                assert(mapa_de(g0).dom().contains(g0[q].0));
                assert(mapa_de(g0)[g0[q].0] == g0[q].1);
            }
            assert forall|x: Seq<char>| #[trigger] m.dom().contains(x) implies exists|q: int| 0 <= q < g1.len() && g1[q].0 == x by {
                let q = choose|q: int| 0 <= q < g0.len() && g0[q].0 == x;
                assert(g1[q].0 == x);
            }
            crate::claves::lema_mapa_ext(g1, m);
        }
    }

    /// Kills a process. If it is pid 1 of a namespace, the kernel kills
    /// every process of that namespace (as Linux does).
    pub fn matar(&mut self, pid: PidHost) -> (r: Vec<PidHost>)
        requires
            old(self).wf(),
        ensures
            final(self).wf(),
            (final(self).vista(), r@) == matar_v(old(self).vista(), pid),
    {
        let ghost k0 = self.vista();
        let i = match self.pos_pid(pid) {
            Some(i) => i,
            None => {
                return Vec::new();
            },
        };
        let ns = self.procesos[i].ns_pid;
        let vs = if ns.is_some() && self.procesos[i].pid_local == 1 {
            self.pids_vistos(ns)
        } else {
            vec![pid]
        };
        proof {
            assert(k0.procs[i as int] == self.procesos@[i as int]@);
            assert(vs@ == victimas(k0, pid));
        }
        // memory given back to the control groups
        Self::descontar(&mut self.cgroups, &self.procesos, &vs);
        // the victims leave
        let ghost s0 = k0.procs;
        let mut nuevos: Vec<ProcesoHost> = Vec::new();
        let mut k: usize = 0;
        while k < self.procesos.len()
            invariant
                k <= s0.len(),
                self.vista().procs == s0,
                s0.len() == self.procesos@.len(),
                vista_procs(nuevos@) == sin_victimas(s0.take(k as int), vs@),
            decreases s0.len() - k,
        {
            proof {
                assert(s0.take(k as int + 1).drop_last() =~= s0.take(k as int));
                assert(s0.take(k as int + 1).last() == s0[k as int]);
                assert(s0[k as int] == self.procesos@[k as int]@);
            }
            if !contiene(&vs, self.procesos[k].pid) {
                let ghost antes = nuevos@;
                nuevos.push(self.procesos[k].copia());
                proof {
                    assert(vista_procs(nuevos@) =~= vista_procs(antes).push(s0[k as int]));
                }
            }
            k = k + 1;
        }
        proof {
            assert(s0.take(k as int) =~= s0);
            lema_sin_victimas(s0, vs@, self.sig_pid);
        }
        self.procesos = nuevos;
        proof {
            assert(self.vista() =~= matar_v(k0, pid).0);
        }
        vs
    }

    /// Reserves memory for a process, within the limit of its control
    /// group. Above the limit, the out-of-memory killer acts, only inside
    /// that group.
    pub fn reservar_memoria(&mut self, origen: &str, pid: PidHost, mb: u32) -> (r: Result<(), ErrorKernel>)
        requires
            old(self).wf(),
            reserva_admisible(old(self).vista(), origen@, pid, mb),
        ensures
            final(self).wf(),
            (final(self).vista(), res_v(r, |x: ()| x)) == reservar_v(old(self).vista(), origen@, pid, mb),
    {
        match self.syscall(origen) {
            Ok(()) => {},
            Err(e) => {
                return Err(e);
            },
        }
        let ghost k1 = self.vista();
        let i = match self.pos_pid(pid) {
            Some(i) => i,
            None => {
                return Err(ErrorKernel::SinProceso(pid));
            },
        };
        proof {
            assert(k1.procs[i as int] == self.procesos@[i as int]@);
        }
        let cg: Option<String> = match &self.procesos[i].cgroup {
            Some(c) => Some(c.clone()),
            None => None,
        };
        if let Some(nombre) = cg {
            let ghost g0 = vista_lista(self.cgroups@);
            proof {
                lema_mapa_de(g0);
            }
            let c = match posicion(&self.cgroups, nombre.as_str()) {
                Some(c) => c,
                None => {
                    proof {
                        assert(k1.cgs.dom().contains(nombre@));
                        let q = choose|q: int| 0 <= q < g0.len() && g0[q].0 == nombre@;
                        assert(g0[q].0 == self.cgroups@[q].0@);
                    }
                    0
                },
            };
            let g = self.cgroups[c].1;
            proof {
                assert(g0[c as int] == (nombre@, g));
                assert(k1.cgs[nombre@] == g);
            }
            if g.uso_mem_mb + mb > g.limite_mem_mb {
                let muertos = self.matar(pid);
                return Err(
                    ErrorKernel::OomKill {
                        pid,
                        pedido: mb,
                        limite: g.limite_mem_mb,
                        uso: g.uso_mem_mb,
                        muertos,
                    },
                );
            }
            let n = self.cgroups[c].0.clone();
            self.cgroups.set(c, (n, Cgroup { uso_mem_mb: g.uso_mem_mb + mb, ..g }));
            proof {
                assert(vista_lista(self.cgroups@) =~= g0.update(c as int, (g0[c as int].0, Cgroup { uso_mem_mb: (g.uso_mem_mb + mb) as u32, ..g })));
                lema_mapa_actualizar(g0, c as int, Cgroup { uso_mem_mb: (g.uso_mem_mb + mb) as u32, ..g });
            }
        }
        let m = self.procesos[i].mem_mb;
        self.procesos[i].mem_mb = m + mb;
        proof {
            let p = k1.procs[i as int];
            assert(self.vista().procs =~= k1.procs.update(i as int, ProcHostV { mem_mb: (p.mem_mb + mb) as u32, ..p }));
            assert(self.vista() =~= reservar_v(old(self).vista(), origen@, pid, mb).0);
        }
        Ok(())
    }

    /// `clone`: creates a process, optionally inside a pid namespace and a
    /// control group. Gives (pid on the host, pid inside the namespace).
    pub fn clone_proceso(
        &mut self,
        origen: &str,
        nombre: &str,
        ns_pid: Option<NsId>,
        cgroup: Option<&str>,
        mem_mb: u32,
    ) -> (r: Result<(PidHost, u32), ErrorKernel>)
        requires
            old(self).wf(),
            clone_admisible(old(self).vista(), origen@, ns_pid, opcion_texto(cgroup), mem_mb),
        ensures
            final(self).wf(),
            (final(self).vista(), res_v(r, |x: (PidHost, u32)| x)) == clone_v(
                old(self).vista(),
                origen@,
                nombre@,
                ns_pid,
                opcion_texto(cgroup),
                mem_mb,
            ),
    {
        match self.syscall(origen) {
            Ok(()) => {},
            Err(e) => {
                return Err(e);
            },
        }
        let ghost k1 = self.vista();
        let pid = self.sig_pid;
        self.sig_pid = self.sig_pid + 1;
        let pid_local = match ns_pid {
            Some(ns) => {
                let j = match self.pos_ns(ns) {
                    Some(j) => j,
                    None => 0,
                };
                let local = self.namespaces[j].sig_pid_local;
                self.namespaces[j].sig_pid_local = local + 1;
                proof {
                    let n = k1.nss[j as int];
                    assert(self.vista().nss =~= k1.nss.update(j as int, NsV { sig_local: (n.sig_local + 1) as u32, ..n }));
                }
                local
            },
            None => pid,
        };
        let cg: Option<String> = match cgroup {
            Some(c) => Some(c.to_owned()),
            None => None,
        };
        let p = ProcesoHost { pid, nombre: nombre.to_owned(), ns_pid, pid_local, cgroup: cg, mem_mb: 0 };
        let ghost pv = p@;
        self.procesos.push(p);
        proof {
            assert(vista_procs(self.procesos@) =~= k1.procs.push(pv));
            assert forall|i: int, j: int| 0 <= i < j < self.vista().procs.len() implies self.vista().procs[i].pid
                < self.vista().procs[j].pid by {
                if j == k1.procs.len() {
                    assert(self.vista().procs[i] == k1.procs[i]);
                } else {
                    assert(self.vista().procs[i] == k1.procs[i]);
                    assert(self.vista().procs[j] == k1.procs[j]);
                }
            }
            assert forall|i: int| 0 <= i < self.vista().procs.len() implies #[trigger] self.vista().procs[i].pid
                < self.vista().sig_pid by {
                if i < k1.procs.len() {
                    assert(self.vista().procs[i] == k1.procs[i]);
                }
            }
        }
        if mem_mb > 0 {
            proof {
                crate::kernel::lema_buscar_pid_ultimo(self.vista().procs, pid);
            }
            match self.reservar_memoria(origen, pid, mem_mb) {
                Ok(()) => {},
                Err(e) => {
                    return Err(e);
                },
            }
        }
        Ok((pid, pid_local))
    }

    /// `ps`: what is seen depends on the namespace it is looked from. From
    /// the host (`None`) every process with its real pid; from a namespace
    /// only its processes.
    pub fn ps(&mut self, origen: &str, vista: Option<NsId>) -> (r: Result<Vec<ProcesoHost>, ErrorKernel>)
        requires
            old(self).wf(),
            !old(self).vista().panico ==> cuenta(old(self).vista().sys, origen@) < u64::MAX,
        ensures
            final(self).wf(),
            final(self).vista() == syscall_v(old(self).vista(), origen@).0,
            res_v(r, |x: Vec<ProcesoHost>| vista_procs(x@)) == match syscall_v(old(self).vista(), origen@).1 {
                Ok(_) => Ok(vistos(old(self).vista().procs, vista)),
                Err(e) => Err(e),
            },
    {
        match self.syscall(origen) {
            Ok(()) => {},
            Err(e) => {
                return Err(e);
            },
        }
        let ghost s = self.vista().procs;
        let mut r: Vec<ProcesoHost> = Vec::new();
        let mut i: usize = 0;
        while i < self.procesos.len()
            invariant
                i <= s.len(),
                s == self.vista().procs,
                s.len() == self.procesos@.len(),
                vista_procs(r@) == vistos(s.take(i as int), vista),
            decreases s.len() - i,
        {
            proof {
                assert(s.take(i as int + 1).drop_last() =~= s.take(i as int));
                assert(s.take(i as int + 1).last() == s[i as int]);
                assert(s[i as int] == self.procesos@[i as int]@);
            }
            if vista.is_none() || self.procesos[i].ns_pid == vista {
                let ghost antes = r@;
                r.push(self.procesos[i].copia());
                proof {
                    assert(vista_procs(r@) =~= vista_procs(antes).push(s[i as int]));
                }
            }
            i = i + 1;
        }
        proof {
            assert(s.take(i as int) =~= s);
        }
        Ok(r)
    }

    /// Number of processes in the namespace `ns`.
    pub fn procesos_en(&self, ns: NsId) -> (n: usize)
        ensures
            n == vistos(self.vista().procs, Some(ns)).len(),
    {
        let ghost s = self.vista().procs;
        let mut n: usize = 0;
        let mut i: usize = 0;
        while i < self.procesos.len()
            invariant
                i <= s.len(),
                s == self.vista().procs,
                s.len() == self.procesos@.len(),
                n == vistos(s.take(i as int), Some(ns)).len(),
                n <= i,
            decreases s.len() - i,
        {
            proof {
                assert(s.take(i as int + 1).drop_last() =~= s.take(i as int));
                assert(s.take(i as int + 1).last() == s[i as int]);
                assert(s[i as int] == self.procesos@[i as int]@);
            }
            if self.procesos[i].ns_pid == Some(ns) {
                n = n + 1;
            }
            i = i + 1;
        }
        proof {
            assert(s.take(i as int) =~= s);
        }
        n
    }

    /// Whether the process `pid` is running.
    pub fn vivo(&self, pid: PidHost) -> (b: bool)
        requires
            self.wf(),
        ensures
            b == (!self.vista().panico && buscar_pid(self.vista().procs, pid) is Some),
    {
        !self.panico && self.pos_pid(pid).is_some()
    }

    /// Connects a network namespace to the bridge and gives it an address.
    pub fn conectar_bridge(&mut self, origen: &str, ns_net: NsId) -> (r: Result<String, ErrorKernel>)
        requires
            old(self).wf(),
            !old(self).vista().panico ==> cuenta(old(self).vista().sys, origen@) < u64::MAX
                && old(self).vista().sig_ip < u8::MAX,
        ensures
            final(self).wf(),
            (final(self).vista(), res_v(r, |x: String| x@)) == conectar_v(old(self).vista(), origen@, ns_net),
    {
        match self.syscall(origen) {
            Ok(()) => {},
            Err(e) => {
                return Err(e);
            },
        }
        let mut ip = String::new();
        ip.push('1');
        ip.push('7');
        ip.push('2');
        ip.push('.');
        ip.push('1');
        ip.push('8');
        ip.push('.');
        ip.push('0');
        ip.push('.');
        escribir_decimal(&mut ip, self.sig_ip as u64);
        proof {
            assert(ip@ =~= ip_de(self.sig_ip));
        }
        self.sig_ip = self.sig_ip + 1;
        let ghost r0 = vista_lista(self.red@);
        match posicion(&self.red, ip.as_str()) {
            Some(i) => {
                let n = self.red[i].0.clone();
                self.red.set(i, (n, ns_net));
                proof {
                    assert(vista_lista(self.red@) =~= r0.update(i as int, (r0[i as int].0, ns_net)));
                    lema_mapa_actualizar(r0, i as int, ns_net);
                }
            },
            None => {
                self.red.push((ip.clone(), ns_net));
                proof {
                    assert(vista_lista(self.red@) =~= r0.insert(r0.len() as int, (ip@, ns_net)));
                    assert forall|q: int| 0 <= q < r0.len() implies (#[trigger] r0[q]).0 != ip@ by {
                        assert(r0[q].0 == self.red@[q].0@);
                    }
                    lema_mapa_insertar(r0, r0.len() as int, ip@, ns_net);
                }
            },
        }
        proof {
            assert(self.vista() =~= conectar_v(old(self).vista(), origen@, ns_net).0);
        }
        Ok(ip)
    }

    pub fn desconectar_bridge(&mut self, ip: &str)
        requires
            old(self).wf(),
        ensures
            final(self).wf(),
            final(self).vista() == (KernelV { red: old(self).vista().red.remove(ip@), ..old(self).vista() }),
    {
        let ghost r0 = vista_lista(self.red@);
        match posicion(&self.red, ip) {
            Some(i) => {
                self.red.remove(i);
                proof {
                    assert(vista_lista(self.red@) =~= r0.remove(i as int));
                    lema_mapa_quitar(r0, i as int);
                }
            },
            None => {
                proof {
                    lema_mapa_de(r0);
                    assert(!mapa_de(r0).dom().contains(ip@)) by {
                        if mapa_de(r0).dom().contains(ip@) {
                            let q = choose|q: int| 0 <= q < r0.len() && r0[q].0 == ip@;
                            assert(r0[q].0 == self.red@[q].0@);
                        }
                    }
                    assert(mapa_de(r0).remove(ip@) =~= mapa_de(r0));
                }
            },
        }
        proof {
            assert(self.vista() =~= (KernelV { red: old(self).vista().red.remove(ip@), ..old(self).vista() }));
        }
    }

    /// Sends a packet over the bridge. The packet goes through the network
    /// stack of the same kernel, even from one container to another. Gives
    /// the network namespaces of the origin and of the destination.
    pub fn enviar(&mut self, origen: &str, ip_origen: &str, ip_destino: &str, puerto: u16) -> (r: Result<
        (NsId, NsId),
        ErrorKernel,
    >)
        requires
            old(self).wf(),
            !old(self).vista().panico ==> cuenta(old(self).vista().sys, origen@) < u64::MAX,
            !old(self).vista().panico && old(self).vista().red.dom().contains(ip_destino@) ==> {
                &&& old(self).vista().red.dom().contains(ip_origen@)
                &&& old(self).vista().paquetes + 2 <= u64::MAX
            },
        ensures
            final(self).wf(),
            (final(self).vista(), res_v(r, |x: (NsId, NsId)| x)) == enviar_v(
                old(self).vista(),
                origen@,
                ip_origen@,
                ip_destino@,
                puerto,
            ),
    {
        match self.syscall(origen) {
            Ok(()) => {},
            Err(e) => {
                return Err(e);
            },
        }
        let ghost r0 = vista_lista(self.red@);
        proof {
            lema_mapa_de(r0);
        }
        let d = match posicion(&self.red, ip_destino) {
            Some(d) => d,
            None => {
                let mut t = ip_destino.to_owned();
                t.push(':');
                escribir_decimal(&mut t, puerto as u64);
                proof {
                    assert(t@ =~= destino_de(ip_destino@, puerto));
                    assert(!mapa_de(r0).dom().contains(ip_destino@)) by {
                        if mapa_de(r0).dom().contains(ip_destino@) {
                            let q = choose|q: int| 0 <= q < r0.len() && r0[q].0 == ip_destino@;
                            assert(r0[q].0 == self.red@[q].0@);
                        }
                    }
                }
                return Err(ErrorKernel::ConexionRechazada(t));
            },
        };
        let o = match posicion(&self.red, ip_origen) {
            Some(o) => o,
            None => {
                proof {
                    assert(r0[d as int].0 == ip_destino@);
                    assert(mapa_de(r0).dom().contains(ip_destino@));
                    let q = choose|q: int| 0 <= q < r0.len() && r0[q].0 == ip_origen@;
                    assert(r0[q].0 == self.red@[q].0@);
                }
                0
            },
        };
        self.paquetes = self.paquetes + 2;
        proof {
            assert(r0[d as int].0 == ip_destino@);
            assert(r0[o as int].0 == ip_origen@);
            assert(self.vista() =~= enviar_v(old(self).vista(), origen@, ip_origen@, ip_destino@, puerto).0);
        }
        Ok((self.red[o].1, self.red[d].1))
    }

    /// The control group `nombre`, if it exists.
    pub fn cgroup(&self, nombre: &str) -> (r: Option<Cgroup>)
        requires
            self.wf(),
        ensures
            r == if self.vista().cgs.dom().contains(nombre@) {
                Some(self.vista().cgs[nombre@])
            } else {
                None::<Cgroup>
            },
    {
        let ghost g0 = vista_lista(self.cgroups@);
        proof {
            lema_mapa_de(g0);
        }
        match posicion(&self.cgroups, nombre) {
            Some(i) => {
                proof {
                    assert(g0[i as int].0 == nombre@);
                }
                Some(self.cgroups[i].1)
            },
            None => {
                proof {
                    if mapa_de(g0).dom().contains(nombre@) {
                        let q = choose|q: int| 0 <= q < g0.len() && g0[q].0 == nombre@;
                        assert(g0[q].0 == self.cgroups@[q].0@);
                    }
                }
                None
            },
        }
    }

    /// Calls served, per caller, in the order of the callers' names.
    pub fn syscalls(&self) -> (r: &Vec<(String, u64)>)
        ensures
            vista_lista(r@) == self.lista_syscalls(),
    {
        &self.syscalls
    }

    pub fn paquetes(&self) -> (n: u64)
        ensures
            n == self.vista().paquetes,
    {
        self.paquetes
    }

    /// (memory used by the processes, memory of the host)
    pub fn memoria_host(&self) -> (r: (u32, u32))
        requires
            memoria_usada(self.vista().procs) <= u32::MAX,
        ensures
            r == (memoria_usada(self.vista().procs) as u32, self.vista().mem_total),
    {
        let ghost s = self.vista().procs;
        let mut usada: u32 = 0;
        let mut i: usize = 0;
        while i < self.procesos.len()
            invariant
                i <= s.len(),
                s == self.vista().procs,
                s.len() == self.procesos@.len(),
                memoria_usada(s) <= u32::MAX,
                usada == memoria_usada(s.take(i as int)),
            decreases s.len() - i,
        {
            proof {
                assert(s.take(i as int + 1).drop_last() =~= s.take(i as int));
                assert(s.take(i as int + 1).last() == s[i as int]);
                assert(s[i as int] == self.procesos@[i as int]@);
                lema_memoria_prefijo(s, i as int + 1);
            }
            usada = usada + self.procesos[i].mem_mb;
            i = i + 1;
        }
        proof {
            assert(s.take(i as int) =~= s);
        }
        (usada, self.mem_total_mb)
    }

    pub fn num_namespaces(&self) -> (n: usize)
        ensures
            n == self.vista().nss.len(),
    {
        self.namespaces.len()
    }

    pub fn num_cgroups(&self) -> (n: usize)
        requires
            self.wf(),
        ensures
            n == self.vista().cgs.dom().len(),
    {
        proof {
            lema_mapa_de(vista_lista(self.cgroups@));
        }
        self.cgroups.len()
    }

    /// A serious failure of the kernel: as it is shared, everything goes down.
    pub fn panic(&mut self)
        requires
            old(self).wf(),
        ensures
            final(self).wf(),
            final(self).vista() == (KernelV { panico: true, procs: Seq::empty(), ..old(self).vista() }),
    {
        self.panico = true;
        self.procesos.clear();
        proof {
            assert(self.vista().procs =~= Seq::<ProcHostV>::empty());
        }
    }

    pub fn en_panico(&self) -> (b: bool)
        ensures
            b == self.vista().panico,
    {
        self.panico
    }

    /// Release of the kernel, as `uname -r` gives it.
    pub fn version(&self) -> (v: &'static str)
        ensures
            v == self.vista().version,
    {
        self.version
    }

    /// Boots the host kernel with a few processes of its own.
    pub fn arrancar(mem_total_mb: u32) -> (k: Kernel)
        ensures
            k.wf(),
            k.vista() == arranque_v(mem_total_mb),
    {
        let mut k = Kernel {
            version: "6.8.0-generic",
            procesos: Vec::new(),
            sig_pid: 1,
            namespaces: Vec::new(),
            sig_ns: 4026532200,
            cgroups: Vec::new(),
            mem_total_mb,
            syscalls: Vec::new(),
            red: Vec::new(),
            sig_ip: 2,
            paquetes: 0,
            panico: false,
        };
        proof {
            assert(k.vista().procs =~= Seq::<ProcHostV>::empty());
            assert(k.vista().nss =~= Seq::<NsV>::empty());
            assert(k.vista().cgs =~= Map::<Seq<char>, Cgroup>::empty());
            assert(k.vista().sys =~= Map::<Seq<char>, u64>::empty());
            assert(k.vista().red =~= Map::<Seq<char>, NsId>::empty());
        }
        let ghost k0 = k.vista();
        let _ = k.clone_proceso("host", "systemd", None, None, 12);
        let ghost k1 = k.vista();
        proof {
            let h = "host"@;
            assert(cuenta(k0.sys, h) == 0);
            assert(k1.sys[h] == 2);
            assert(k1.sys.dom().contains(h));
            assert(k1.sig_pid == 2);
        }
        let _ = k.clone_proceso("host", "sshd", None, None, 6);
        let ghost k2 = k.vista();
        proof {
            let h = "host"@;
            assert(k2.sys[h] == 4);
            assert(k2.sig_pid == 3);
        }
        let _ = k.clone_proceso("host", "dockerd", None, None, 40);
        proof {
            let h = "host"@;
            assert(k.vista().sys[h] == 6);
        }
        k.sig_pid = 1040;
        proof {
            assert(k.vista().sys =~= map!["host"@ => 6u64]);
            assert(k.vista().procs =~= arranque_v(mem_total_mb).procs);
            assert(k.vista() =~= arranque_v(mem_total_mb));
        }
        k
    }

    /// Every operation asked of the kernel goes through here and is counted
    /// by who asked for it. While the kernel is in panic, nothing works.
    pub fn syscall(&mut self, origen: &str) -> (r: Result<(), ErrorKernel>)
        requires
            old(self).wf(),
            !old(self).vista().panico ==> cuenta(old(self).vista().sys, origen@) < u64::MAX,
        ensures
            final(self).wf(),
            (final(self).vista(), res_v(r, |x: ()| x)) == syscall_v(old(self).vista(), origen@),
    {
        if self.panico {
            return Err(ErrorKernel::Panico);
        }
        incrementar(&mut self.syscalls, origen);
        proof {
            assert(self.vista() =~= tras_syscall(old(self).vista(), origen@));
        }
        Ok(())
    }

    pub fn uname(&mut self, origen: &str) -> (r: Result<&'static str, ErrorKernel>)
        requires
            old(self).wf(),
            !old(self).vista().panico ==> cuenta(old(self).vista().sys, origen@) < u64::MAX,
        ensures
            final(self).wf(),
            final(self).vista() == syscall_v(old(self).vista(), origen@).0,
            res_v(r, |x: &'static str| x) == match syscall_v(old(self).vista(), origen@).1 {
                Ok(_) => Ok(old(self).vista().version),
                Err(e) => Err(e),
            },
    {
        match self.syscall(origen) {
            Ok(()) => Ok(self.version),
            Err(e) => Err(e),
        }
    }

    /// `unshare`: creates a new namespace.
    pub fn unshare(&mut self, origen: &str, tipo: TipoNs) -> (r: Result<NsId, ErrorKernel>)
        requires
            old(self).wf(),
            !old(self).vista().panico ==> cuenta(old(self).vista().sys, origen@) < u64::MAX
                && old(self).vista().sig_ns < u64::MAX,
        ensures
            final(self).wf(),
            (final(self).vista(), res_v(r, |x: NsId| x)) == unshare_v(old(self).vista(), origen@, tipo),
    {
        match self.syscall(origen) {
            Ok(()) => {},
            Err(e) => {
                return Err(e);
            },
        }
        let id = self.sig_ns;
        self.sig_ns = self.sig_ns + 1;
        self.namespaces.push(Namespace { id, tipo, sig_pid_local: 1 });
        proof {
            let k1 = tras_syscall(old(self).vista(), origen@);
            assert(self.vista().nss =~= k1.nss.push(NsV { id, tipo, sig_local: 1 }));
            assert(self.vista() =~= unshare_v(old(self).vista(), origen@, tipo).0);
        }
        Ok(id)
    }

    /// Creates a control group with resource limits.
    pub fn crear_cgroup(&mut self, origen: &str, nombre: &str, limite_mem_mb: u32, cpus_milesimas: u32) -> (r:
        Result<(), ErrorKernel>)
        requires
            old(self).wf(),
            !old(self).vista().panico ==> cuenta(old(self).vista().sys, origen@) < u64::MAX,
        ensures
            final(self).wf(),
            (final(self).vista(), res_v(r, |x: ()| x)) == crear_cgroup_v(
                old(self).vista(),
                origen@,
                nombre@,
                limite_mem_mb,
                cpus_milesimas,
            ),
    {
        match self.syscall(origen) {
            Ok(()) => {},
            Err(e) => {
                return Err(e);
            },
        }
        let ghost s0 = vista_lista(self.cgroups@);
        let g = Cgroup { limite_mem_mb, cpus_milesimas, uso_mem_mb: 0 };
        match posicion(&self.cgroups, nombre) {
            Some(i) => {
                let n = self.cgroups[i].0.clone();
                self.cgroups.set(i, (n, g));
                proof {
                    assert(vista_lista(self.cgroups@) =~= s0.update(i as int, (s0[i as int].0, g)));
                    lema_mapa_actualizar(s0, i as int, g);
                }
            },
            None => {
                self.cgroups.push((nombre.to_owned(), g));
                proof {
                    assert(vista_lista(self.cgroups@) =~= s0.insert(s0.len() as int, (nombre@, g)));
                    assert forall|q: int| 0 <= q < s0.len() implies (#[trigger] s0[q]).0 != nombre@ by {
                        assert(s0[q].0 == self.cgroups@[q].0@);
                    }
                    lema_mapa_insertar(s0, s0.len() as int, nombre@, g);
                }
            },
        }
        proof {
            assert(self.vista() =~= crear_cgroup_v(old(self).vista(), origen@, nombre@, limite_mem_mb, cpus_milesimas).0);
        }
        Ok(())
    }
}

} // verus!
