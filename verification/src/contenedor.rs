//! A container: a group of host processes with a view of its own.
//!
//! It has no kernel of its own. It has namespaces (pid, mount, network,
//! hostname) created in the shared kernel, a control group with its limits,
//! and a layered file system (overlay): the layers of the image, read only,
//! and a writable layer of its own (copy-on-write).
use vstd::prelude::*;

use crate::claves::{lema_mapa_actualizar, lema_mapa_de, lema_mapa_insertar, lema_mapa_ultima, mapa_de, posicion, ultima_posicion};
use crate::imagen::{digest_valido, vista_archivos, vista_capas, CapaImagen, CapaV};
use crate::kernel::{lema_ordenada_unicas, ordenada, vista_opcion, NsId, PidHost};
use vstd::utf8::{encode_utf8, is_char_boundary};
use crate::texto::{agregar, bytes_de, lema_ascii_corte, lema_texto_orden, menor, partir, texto_menor};

verus! {

#[derive(Clone, Copy, PartialEq, Eq, Debug, Structural)]
pub enum Estado {
    Corriendo,
    /// Exit code (137: killed by SIGKILL).
    Detenido(i32),
}

#[derive(Clone, Copy, Debug)]
pub struct Namespaces {
    pub pid: NsId,
    pub mnt: NsId,
    pub net: NsId,
    pub uts: NsId,
}

#[derive(Debug)]
pub struct Contenedor {
    pub id: String,
    pub nombre: String,
    pub imagen: String,
    pub ns: Namespaces,
    pub hostname: String,
    pub ip: String,
    pub puerto: u16,
    pub cgroup: String,
    pub pid1: PidHost,
    pub estado: Estado,
    /// Shared, read only; from the bottom up.
    capas_ro: Vec<CapaImagen>,
    /// Its own, in the order of the paths; `None` hides a file (whiteout).
    capa_rw: Vec<(String, Option<String>)>,
}

/// Mathematical value of a container.
pub struct ContenedorV {
    pub id: Seq<char>,
    pub nombre: Seq<char>,
    pub imagen: Seq<char>,
    pub ns: Namespaces,
    pub hostname: Seq<char>,
    pub ip: Seq<char>,
    pub puerto: u16,
    pub cgroup: Seq<char>,
    pub pid1: PidHost,
    pub estado: Estado,
    /// Layers of the image, from the bottom up.
    pub capas: Seq<CapaV>,
    /// The writable layer, in the order of its paths.
    pub rw: Seq<(Seq<char>, Option<Seq<char>>)>,
}

pub open spec fn vista_rw(s: Seq<(String, Option<String>)>) -> Seq<(Seq<char>, Option<Seq<char>>)> {
    s.map_values(|e: (String, Option<String>)| (e.0@, vista_opcion(e.1)))
}

/// Whether the layer `c` has a file at `ruta`.
pub open spec fn en_capa(c: CapaV, ruta: Seq<char>) -> bool {
    mapa_de(c.archivos).dom().contains(ruta)
}

/// Whether some layer of `cs` has a file at `ruta`.
pub open spec fn en_imagen(cs: Seq<CapaV>, ruta: Seq<char>) -> bool {
    exists|i: int| 0 <= i < cs.len() && en_capa(#[trigger] cs[i], ruta)
}

/// The topmost layer of `cs` with a file at `ruta`.
pub open spec fn capa_superior(cs: Seq<CapaV>, ruta: Seq<char>) -> Option<int>
    decreases cs.len(),
{
    if cs.len() == 0 {
        None
    } else if en_capa(cs.last(), ruta) {
        Some(cs.len() - 1)
    } else {
        capa_superior(cs.drop_last(), ruta)
    }
}

/// Where a file of the layer `c` is said to be read from: its digest
/// without the 7 bytes of `sha256:`.
pub open spec fn origen_capa(c: CapaV) -> Seq<char> {
    "capa imagen "@ + bytes_de(c.digest, 7, encode_utf8(c.digest).len() as int)
}

/// Read through the overlay: the writable layer first, then the layers of
/// the image from the top down. Gives the content and where it was found.
pub open spec fn leer_v(
    rw: Map<Seq<char>, Option<Seq<char>>>,
    cs: Seq<CapaV>,
    ruta: Seq<char>,
) -> Option<(Seq<char>, Seq<char>)> {
    if rw.dom().contains(ruta) {
        match rw[ruta] {
            Some(c) => Some((c, "capa rw del contenedor"@)),
            None => None,
        }
    } else {
        match capa_superior(cs, ruta) {
            Some(i) => Some((mapa_de(cs[i].archivos)[ruta], origen_capa(cs[i]))),
            None => None,
        }
    }
}

/// Whether a read of `ruta` that ends in a layer of the image can cut the
/// digest of that layer after its 7th byte.
pub open spec fn lectura_posible(rw: Map<Seq<char>, Option<Seq<char>>>, cs: Seq<CapaV>, ruta: Seq<char>) -> bool {
    !rw.dom().contains(ruta) && capa_superior(cs, ruta) is Some ==> is_char_boundary(
        encode_utf8(cs[capa_superior(cs, ruta)->0].digest),
        7,
    )
}

/// Kind of a change of the writable layer: deleted, changed (the image has
/// the file) or added.
pub open spec fn tipo_cambio(v: Option<Seq<char>>, en_img: bool) -> char {
    match v {
        None => 'D',
        Some(_) => if en_img {
            'C'
        } else {
            'A'
        },
    }
}

/// `docker diff`: one line per path of the writable layer, in its order.
pub open spec fn diff_v(rw: Seq<(Seq<char>, Option<Seq<char>>)>, cs: Seq<CapaV>) -> Seq<(char, Seq<char>)> {
    Seq::new(rw.len(), |i: int| (tipo_cambio(rw[i].1, en_imagen(cs, rw[i].0)), rw[i].0))
}

proof fn lema_capa_superior(cs: Seq<CapaV>, ruta: Seq<char>)
    ensures
        match capa_superior(cs, ruta) {
            Some(i) => 0 <= i < cs.len() && en_capa(cs[i], ruta) && forall|j: int|
                i < j < cs.len() ==> !en_capa(#[trigger] cs[j], ruta),
            None => forall|j: int| 0 <= j < cs.len() ==> !en_capa(#[trigger] cs[j], ruta),
        },
        capa_superior(cs, ruta) is Some <==> en_imagen(cs, ruta),
    decreases cs.len(),
{
    if cs.len() > 0 {
        let r = cs.drop_last();
        lema_capa_superior(r, ruta);
        if !en_capa(cs.last(), ruta) {
            assert forall|j: int| 0 <= j < r.len() implies #[trigger] r[j] == cs[j] by {}
            assert forall|j: int| 0 <= j < cs.len() && en_capa(#[trigger] cs[j], ruta) implies j < r.len()
                && en_capa(r[j], ruta) by {
                if j == cs.len() - 1 {
                    assert(cs[j] == cs.last());
                }
            }
            if en_imagen(cs, ruta) {
                let j = choose|j: int| 0 <= j < cs.len() && en_capa(#[trigger] cs[j], ruta);
                assert(j < r.len());
                assert(en_capa(r[j], ruta));
            }
            if en_imagen(r, ruta) {
                let j = choose|j: int| 0 <= j < r.len() && en_capa(#[trigger] r[j], ruta);
                assert(en_capa(cs[j], ruta));
            }
        } else {
            assert(en_capa(cs[cs.len() - 1], ruta));
        }
    }
}

/// With valid digests every read can name its layer.
pub proof fn lema_lectura_posible(rw: Map<Seq<char>, Option<Seq<char>>>, cs: Seq<CapaV>, ruta: Seq<char>)
    requires
        forall|j: int| 0 <= j < cs.len() ==> digest_valido(#[trigger] cs[j].digest),
    ensures
        lectura_posible(rw, cs, ruta),
{
    lema_capa_superior(cs, ruta);
    if let Some(i) = capa_superior(cs, ruta) {
        assert(digest_valido(cs[i].digest));
        lema_ascii_corte(cs[i].digest, 7);
    }
}

/// What was written is read back, from the writable layer.
pub proof fn ley_leer_lo_escrito(
    rw: Map<Seq<char>, Option<Seq<char>>>,
    cs: Seq<CapaV>,
    ruta: Seq<char>,
    contenido: Seq<char>,
)
    ensures
        leer_v(rw.insert(ruta, Some(contenido)), cs, ruta) == Some((contenido, "capa rw del contenedor"@)),
{
}

/// A deleted file is gone, whatever the image holds.
pub proof fn ley_leer_lo_borrado(rw: Map<Seq<char>, Option<Seq<char>>>, cs: Seq<CapaV>, ruta: Seq<char>)
    ensures
        leer_v(rw.insert(ruta, None), cs, ruta) is None,
{
}

/// Writing or deleting a path leaves every other path as it read before.
pub proof fn ley_cambio_local(
    rw: Map<Seq<char>, Option<Seq<char>>>,
    cs: Seq<CapaV>,
    ruta: Seq<char>,
    v: Option<Seq<char>>,
    otra: Seq<char>,
)
    requires
        otra != ruta,
    ensures
        leer_v(rw.insert(ruta, v), cs, otra) == leer_v(rw, cs, otra),
{
}

/// With an empty writable layer a container reads what its image holds:
/// the topmost layer that has the file wins.
pub proof fn ley_leer_imagen(cs: Seq<CapaV>, ruta: Seq<char>)
    ensures
        leer_v(Map::empty(), cs, ruta) == match capa_superior(cs, ruta) {
            Some(i) => Some((mapa_de(cs[i].archivos)[ruta], origen_capa(cs[i]))),
            None => None,
        },
        leer_v(Map::empty(), cs, ruta) is Some <==> en_imagen(cs, ruta),
{
    lema_capa_superior(cs, ruta);
}

/// Whether the layer `c` has a file at `ruta`.
fn capa_tiene(c: &CapaImagen, ruta: &str) -> (b: bool)
    ensures
        b == en_capa(c@, ruta@),
{
    proof {
        lema_mapa_ultima(vista_archivos(c.archivos@), ruta@);
    }
    match ultima_posicion(&c.archivos, ruta) {
        Some(j) => {
            proof {
                assert(vista_archivos(c.archivos@)[j as int].0 == ruta@);
            }
            true
        },
        None => {
            proof {
                assert forall|i: int| 0 <= i < vista_archivos(c.archivos@).len() implies vista_archivos(
                    c.archivos@,
                )[i].0 != ruta@ by {
                    assert(c.archivos@[i].0@ != ruta@);
                }
            }
            false
        },
    }
}

/// Whether some layer of `capas` has a file at `ruta`.
fn imagen_tiene(capas: &Vec<CapaImagen>, ruta: &str) -> (b: bool)
    ensures
        b == en_imagen(vista_capas(capas@), ruta@),
{
    let ghost cs = vista_capas(capas@);
    let mut i: usize = 0;
    while i < capas.len()
        invariant
            i <= cs.len(),
            cs == vista_capas(capas@),
            forall|j: int| 0 <= j < i ==> !en_capa(#[trigger] cs[j], ruta@),
        decreases cs.len() - i,
    {
        if capa_tiene(&capas[i], ruta) {
            proof {
                assert(en_capa(cs[i as int], ruta@));
            }
            return true;
        }
        i = i + 1;
    }
    false
}

/// Sets the entry of `k` in a list ordered by its keys, in its place.
fn poner(v: &mut Vec<(String, Option<String>)>, k: &str, x: Option<String>)
    requires
        ordenada(vista_rw(old(v)@)),
    ensures
        ordenada(vista_rw(final(v)@)),
        mapa_de(vista_rw(final(v)@)) == mapa_de(vista_rw(old(v)@)).insert(k@, vista_opcion(x)),
{
    let ghost s0 = vista_rw(v@);
    let ghost xv = vista_opcion(x);
    proof {
        lema_ordenada_unicas(s0);
        lema_mapa_de(s0);
    }
    match posicion(v, k) {
        Some(i) => {
            let nombre = v[i].0.clone();
            v.set(i, (nombre, x));
            proof {
                let s1 = vista_rw(v@);
                assert(s0[i as int].0 == k@);
                assert(s1 =~= s0.update(i as int, (k@, xv)));
                lema_mapa_actualizar(s0, i as int, xv);
                assert(ordenada(s1));
            }
        },
        None => {
            proof {
                assert forall|q: int| 0 <= q < s0.len() implies s0[q].0 != k@ by {
                    assert(s0[q].0 == v@[q].0@);
                }
            }
            let mut j: usize = 0;
            while j < v.len() && !menor(k, v[j].0.as_str())
                invariant
                    j <= v@.len(),
                    vista_rw(v@) == s0,
                    forall|q: int| 0 <= q < j ==> texto_menor(s0[q].0, k@),
                    forall|q: int| 0 <= q < s0.len() ==> s0[q].0 != k@,
                decreases v@.len() - j,
            {
                proof {
                    assert(s0[j as int].0 == v@[j as int].0@);
                    lema_texto_orden(s0[j as int].0, k@, k@);
                }
                j = j + 1;
            }
            proof {
                if j < v@.len() {
                    assert(s0[j as int].0 == v@[j as int].0@);
                }
            }
            v.insert(j, (k.to_owned(), x));
            proof {
                let s1 = vista_rw(v@);
                assert(s1 =~= s0.insert(j as int, (k@, xv)));
                assert forall|a: int, b: int| 0 <= a < b < s1.len() implies texto_menor(s1[a].0, s1[b].0) by {
                    if b < j {
                    } else if b == j {
                    } else if a < j {
                        lema_texto_orden(s0[a].0, k@, s0[j as int].0);
                        if b - 1 > j {
                            lema_texto_orden(s0[a].0, s0[j as int].0, s0[b - 1].0);
                        }
                    } else if a == j {
                        if b - 1 > j {
                            lema_texto_orden(k@, s0[j as int].0, s0[b - 1].0);
                        }
                    }
                }
                lema_mapa_insertar(s0, j as int, k@, xv);
            }
        },
    }
}

impl View for Contenedor {
    type V = ContenedorV;

    closed spec fn view(&self) -> ContenedorV {
        ContenedorV {
            id: self.id@,
            nombre: self.nombre@,
            imagen: self.imagen@,
            ns: self.ns,
            hostname: self.hostname@,
            ip: self.ip@,
            puerto: self.puerto,
            cgroup: self.cgroup@,
            pid1: self.pid1,
            estado: self.estado,
            capas: vista_capas(self.capas_ro@),
            rw: vista_rw(self.capa_rw@),
        }
    }
}

impl Contenedor {
    pub open spec fn capas(&self) -> Seq<CapaV> {
        self@.capas
    }

    pub open spec fn rw(&self) -> Seq<(Seq<char>, Option<Seq<char>>)> {
        self@.rw
    }

    pub open spec fn wf(&self) -> bool {
        ordenada(self.rw())
    }

    /// Files of the writable layer (`None`: deleted).
    pub open spec fn archivos_rw(&self) -> Map<Seq<char>, Option<Seq<char>>> {
        mapa_de(self.rw())
    }

    /// A running container; its hostname is the first 12 bytes of its id.
    #[allow(clippy::too_many_arguments)]
    pub fn nuevo(
        id: String,
        nombre: &str,
        imagen: &str,
        ns: Namespaces,
        ip: String,
        puerto: u16,
        cgroup: String,
        pid1: PidHost,
        capas_ro: Vec<CapaImagen>,
    ) -> (c: Contenedor)
        requires
            is_char_boundary(encode_utf8(id@), 12),
        ensures
            c.wf(),
            c@ == (ContenedorV {
                id: id@,
                nombre: nombre@,
                imagen: imagen@,
                ns,
                hostname: bytes_de(id@, 0, 12),
                ip: ip@,
                puerto,
                cgroup: cgroup@,
                pid1,
                estado: Estado::Corriendo,
                capas: vista_capas(capas_ro@),
                rw: Seq::empty(),
            }),
    {
        let (hostname, _) = partir(id.as_str(), 12);
        let c = Contenedor {
            id,
            nombre: nombre.to_owned(),
            imagen: imagen.to_owned(),
            ns,
            hostname,
            ip,
            puerto,
            cgroup,
            pid1,
            estado: Estado::Corriendo,
            capas_ro,
            capa_rw: Vec::new(),
        };
        proof {
            assert(c.rw() =~= Seq::<(Seq<char>, Option<Seq<char>>)>::empty());
        }
        c
    }

    /// Read through the overlay: first the layer of the container, then
    /// those of the image from the top down. Gives the content and where it
    /// was read from.
    pub fn leer(&self, ruta: &str) -> (r: Option<(String, String)>)
        requires
            self.wf(),
            lectura_posible(self.archivos_rw(), self.capas(), ruta@),
        ensures
            match r {
                Some((c, o)) => leer_v(self.archivos_rw(), self.capas(), ruta@) == Some((c@, o@)),
                None => leer_v(self.archivos_rw(), self.capas(), ruta@) is None,
            },
    {
        let ghost rw = self.rw();
        proof {
            lema_ordenada_unicas(rw);
            lema_mapa_de(rw);
        }
        match posicion(&self.capa_rw, ruta) {
            Some(i) => {
                proof {
                    assert(rw[i as int].0 == ruta@);
                    assert(mapa_de(rw)[ruta@] == vista_opcion(self.capa_rw@[i as int].1));
                }
                return match &self.capa_rw[i].1 {
                    Some(c) => {
                        let origen = "capa rw del contenedor".to_owned();
                        Some((c.clone(), origen))
                    },
                    None => None,
                };
            },
            None => {
                proof {
                    if mapa_de(rw).dom().contains(ruta@) {
                        let q = choose|q: int| 0 <= q < rw.len() && rw[q].0 == ruta@;
                        assert(rw[q].0 == self.capa_rw@[q].0@);
                    }
                }
            },
        }
        let ghost cs = self.capas();
        proof {
            lema_capa_superior(cs, ruta@);
        }
        let mut i: usize = self.capas_ro.len();
        while i > 0
            invariant
                i <= cs.len(),
                cs == self.capas(),
                !mapa_de(rw).dom().contains(ruta@),
                rw == self.rw(),
                lectura_posible(self.archivos_rw(), cs, ruta@),
                forall|j: int| i <= j < cs.len() ==> !en_capa(#[trigger] cs[j], ruta@),
                match capa_superior(cs, ruta@) {
                    Some(s) => 0 <= s < cs.len() && en_capa(cs[s], ruta@) && forall|j: int|
                        s < j < cs.len() ==> !en_capa(#[trigger] cs[j], ruta@),
                    None => forall|j: int| 0 <= j < cs.len() ==> !en_capa(#[trigger] cs[j], ruta@),
                },
            decreases i,
        {
            let capa = &self.capas_ro[i - 1];
            let ghost a = vista_archivos(capa.archivos@);
            proof {
                lema_mapa_ultima(a, ruta@);
                assert(cs[i - 1] == capa@);
            }
            match ultima_posicion(&capa.archivos, ruta) {
                Some(j) => {
                    proof {
                        assert(a[j as int].0 == ruta@);
                        assert(en_capa(cs[i - 1], ruta@));
                        assert forall|q: int| j < q < a.len() implies a[q].0 != ruta@ by {
                            assert(a[q].0 == capa.archivos@[q].0@);
                        }
                        assert(mapa_de(a)[ruta@] == a[j as int].1);
                        let s = capa_superior(cs, ruta@)->0;
                        assert(s == i - 1);
                    }
                    let contenido = capa.archivos[j].1.clone();
                    let mut origen = "capa imagen ".to_owned();
                    let (_, resto) = partir(capa.digest.as_str(), 7);
                    agregar(&mut origen, resto.as_str());
                    return Some((contenido, origen));
                },
                None => {
                    proof {
                        assert forall|q: int| 0 <= q < a.len() implies a[q].0 != ruta@ by {
                            assert(a[q].0 == capa.archivos@[q].0@);
                        }
                        assert(!en_capa(cs[i - 1], ruta@));
                    }
                },
            }
            i = i - 1;
        }
        None
    }

    /// Copy-on-write: the image is never touched. Gives 'C' when the image
    /// had the file (changed) and 'A' when it did not (added).
    pub fn escribir(&mut self, ruta: &str, contenido: &str) -> (t: char)
        requires
            old(self).wf(),
        ensures
            final(self).wf(),
            final(self).archivos_rw() == old(self).archivos_rw().insert(ruta@, Some(contenido@)),
            t == tipo_cambio(Some(contenido@), en_imagen(old(self).capas(), ruta@)),
            final(self)@ == (ContenedorV { rw: final(self)@.rw, ..old(self)@ }),
    {
        let existia_en_imagen = imagen_tiene(&self.capas_ro, ruta);
        poner(&mut self.capa_rw, ruta, Some(contenido.to_owned()));
        if existia_en_imagen {
            'C'
        } else {
            'A'
        }
    }

    /// Deleting hides the file with a whiteout in the writable layer.
    pub fn borrar(&mut self, ruta: &str)
        requires
            old(self).wf(),
        ensures
            final(self).wf(),
            final(self).archivos_rw() == old(self).archivos_rw().insert(ruta@, None),
            final(self)@ == (ContenedorV { rw: final(self)@.rw, ..old(self)@ }),
    {
        poner(&mut self.capa_rw, ruta, None);
    }

    /// `docker diff`: each path of the writable layer, in order, as
    /// deleted ('D'), changed ('C') or added ('A').
    pub fn diff(&self) -> (r: Vec<(char, String)>)
        ensures
            r@.map_values(|e: (char, String)| (e.0, e.1@)) == diff_v(self.rw(), self.capas()),
    {
        let ghost d = diff_v(self.rw(), self.capas());
        let mut r: Vec<(char, String)> = Vec::new();
        let mut i: usize = 0;
        while i < self.capa_rw.len()
            invariant
                i <= self.capa_rw@.len(),
                d == diff_v(self.rw(), self.capas()),
                r@.len() == i,
                r@.map_values(|e: (char, String)| (e.0, e.1@)) == d.take(i as int),
            decreases self.capa_rw@.len() - i,
        {
            let ghost antes = r@;
            let en_img = imagen_tiene(&self.capas_ro, self.capa_rw[i].0.as_str());
            let tipo = match &self.capa_rw[i].1 {
                None => 'D',
                Some(_) => if en_img {
                    'C'
                } else {
                    'A'
                },
            };
            r.push((tipo, self.capa_rw[i].0.clone()));
            proof {
                assert(self.rw()[i as int] == (self.capa_rw@[i as int].0@, vista_opcion(self.capa_rw@[i as int].1)));
                assert(r@.map_values(|e: (char, String)| (e.0, e.1@)) =~= d.take(i as int + 1)) by {
                    assert forall|q: int| 0 <= q < i implies r@[q] == antes[q] by {}
                    assert(antes.map_values(|e: (char, String)| (e.0, e.1@)) == d.take(i as int));
                }
            }
            i = i + 1;
        }
        proof {
            assert(d.take(i as int) =~= d);
        }
        r
    }

    pub fn corriendo(&self) -> (b: bool)
        ensures
            b == (self@.estado == Estado::Corriendo),
    {
        self.estado == Estado::Corriendo
    }

    pub fn id(&self) -> (r: &String)
        ensures
            r@ == self@.id,
    {
        &self.id
    }

    pub fn nombre(&self) -> (r: &String)
        ensures
            r@ == self@.nombre,
    {
        &self.nombre
    }

    pub fn imagen(&self) -> (r: &String)
        ensures
            r@ == self@.imagen,
    {
        &self.imagen
    }

    pub fn ns(&self) -> (r: Namespaces)
        ensures
            r == self@.ns,
    {
        self.ns
    }

    pub fn hostname(&self) -> (r: &String)
        ensures
            r@ == self@.hostname,
    {
        &self.hostname
    }

    pub fn ip(&self) -> (r: &String)
        ensures
            r@ == self@.ip,
    {
        &self.ip
    }

    pub fn puerto(&self) -> (r: u16)
        ensures
            r == self@.puerto,
    {
        self.puerto
    }

    pub fn cgroup(&self) -> (r: &String)
        ensures
            r@ == self@.cgroup,
    {
        &self.cgroup
    }

    pub fn pid1(&self) -> (r: PidHost)
        ensures
            r == self@.pid1,
    {
        self.pid1
    }

    pub fn estado(&self) -> (r: Estado)
        ensures
            r == self@.estado,
    {
        self.estado
    }

    /// The container stops with exit code `codigo`.
    pub fn detener(&mut self, codigo: i32)
        ensures
            final(self)@ == (ContenedorV { estado: Estado::Detenido(codigo), ..old(self)@ }),
    {
        self.estado = Estado::Detenido(codigo);
    }
}

} // verus!
