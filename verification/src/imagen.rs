//! Images: read-only templates made of layers.
//!
//! An image holds no kernel: only the files (binaries, libraries,
//! configuration) that the process needs. Layers are shared between images
//! and containers: the registry keeps each one once and counts who uses it.
use vstd::prelude::*;

use crate::claves::{
    claves_unicas, lema_mapa_actualizar, lema_mapa_de, lema_mapa_insertar, mapa_de, posicion,
};
use crate::kernel::ordenada;
use crate::texto::{agregar, lema_texto_orden, menor, texto_menor};
use vstd::utf8::is_ascii_chars;

verus! {

#[derive(Debug)]
pub struct CapaImagen {
    pub digest: String,
    /// The line of the Dockerfile that made it.
    pub instruccion: String,
    /// Path and content of each file; a later entry for a path wins.
    pub archivos: Vec<(String, String)>,
}

pub struct CapaV {
    pub digest: Seq<char>,
    pub instruccion: Seq<char>,
    pub archivos: Seq<(Seq<char>, Seq<char>)>,
}

pub open spec fn vista_archivos(s: Seq<(String, String)>) -> Seq<(Seq<char>, Seq<char>)> {
    s.map_values(|e: (String, String)| (e.0@, e.1@))
}

impl View for CapaImagen {
    type V = CapaV;

    open spec fn view(&self) -> CapaV {
        CapaV { digest: self.digest@, instruccion: self.instruccion@, archivos: vista_archivos(self.archivos@) }
    }
}

impl CapaImagen {
    pub fn copia(&self) -> (r: CapaImagen)
        ensures
            r@ == self@,
    {
        let mut archivos: Vec<(String, String)> = Vec::new();
        let mut i: usize = 0;
        while i < self.archivos.len()
            invariant
                i <= self.archivos@.len(),
                archivos@.len() == i,
                vista_archivos(archivos@) == vista_archivos(self.archivos@).take(i as int),
            decreases self.archivos@.len() - i,
        {
            let ghost antes = archivos@;
            let e = (self.archivos[i].0.clone(), self.archivos[i].1.clone());
            archivos.push(e);
            i = i + 1;
            proof {
                assert forall|j: int| 0 <= j < i implies #[trigger] vista_archivos(archivos@)[j] == vista_archivos(self.archivos@).take(i as int)[j] by {
                    if j < i - 1 {
                        assert(archivos@[j] == antes[j]);
                        assert(vista_archivos(antes)[j] == vista_archivos(self.archivos@).take(i - 1)[j]);
                    }
                }
                assert(vista_archivos(archivos@) =~= vista_archivos(self.archivos@).take(i as int));
            }
        }
        proof {
            assert(vista_archivos(self.archivos@).take(i as int) =~= vista_archivos(self.archivos@));
        }
        CapaImagen { digest: self.digest.clone(), instruccion: self.instruccion.clone(), archivos }
    }
}

/// Copies of a list of layers.
pub fn copiar_capas(v: &Vec<CapaImagen>) -> (r: Vec<CapaImagen>)
    ensures
        vista_capas(r@) == vista_capas(v@),
{
    let mut r: Vec<CapaImagen> = Vec::new();
    let mut i: usize = 0;
    while i < v.len()
        invariant
            i <= v@.len(),
            r@.len() == i,
            vista_capas(r@) == vista_capas(v@).take(i as int),
        decreases v@.len() - i,
    {
        let ghost antes = r@;
        r.push(v[i].copia());
        i = i + 1;
        proof {
            assert forall|j: int| 0 <= j < i implies #[trigger] vista_capas(r@)[j] == vista_capas(v@).take(i as int)[j] by {
                if j < i - 1 {
                    assert(r@[j] == antes[j]);
                    assert(vista_capas(antes)[j] == vista_capas(v@).take(i - 1)[j]);
                }
            }
            assert(vista_capas(r@) =~= vista_capas(v@).take(i as int));
        }
    }
    proof {
        assert(vista_capas(v@).take(i as int) =~= vista_capas(v@));
    }
    r
}

pub open spec fn vista_capas(s: Seq<CapaImagen>) -> Seq<CapaV> {
    s.map_values(|c: CapaImagen| c@)
}

#[derive(Debug)]
pub struct Imagen {
    /// From the bottom (base) up.
    pub capas: Vec<CapaImagen>,
    pub proceso_principal: String,
    pub mem_principal_mb: u32,
    pub puerto: u16,
}

pub struct ImagenV {
    pub capas: Seq<CapaV>,
    pub proceso: Seq<char>,
    pub mem: u32,
    pub puerto: u16,
}

impl View for Imagen {
    type V = ImagenV;

    open spec fn view(&self) -> ImagenV {
        ImagenV {
            capas: vista_capas(self.capas@),
            proceso: self.proceso_principal@,
            mem: self.mem_principal_mb,
            puerto: self.puerto,
        }
    }
}

/// A layer kept by the registry and how many containers hold it.
pub struct EntradaV {
    pub capa: CapaV,
    pub prestada: usize,
}

pub struct Registro {
    locales: Vec<(String, Imagen)>,
    capas: Vec<(String, CapaImagen, usize)>,
}

// ------------------------------------------------------------------------
// The remote catalog ("Docker Hub")
// ------------------------------------------------------------------------

pub open spec fn capa_v(digest: Seq<char>, instruccion: Seq<char>, archivos: Seq<(Seq<char>, Seq<char>)>) -> CapaV {
    CapaV { digest, instruccion, archivos }
}

pub open spec fn base_debian() -> CapaV {
    capa_v(
        "sha256:4f4fb700ef54"@,
        "FROM debian:bookworm-slim"@,
        seq![
            ("/bin/sh"@, "<binario dash>"@),
            ("/etc/os-release"@, "Debian GNU/Linux 12 (bookworm)"@),
            ("/lib/x86_64-linux-gnu/libc.so.6"@, "<glibc 2.36>"@),
        ],
    )
}

/// What the remote registry offers for a reference: layers, main process,
/// memory of the main process and port.
pub open spec fn catalogo_v(referencia: Seq<char>) -> Option<ImagenV> {
    if referencia == "nginx:1.27"@ {
        Some(
            ImagenV {
                capas: seq![
                    base_debian(),
                    capa_v(
                        "sha256:a2abf6c4d29d"@,
                        "RUN apt-get install nginx"@,
                        seq![("/usr/sbin/nginx"@, "<binario nginx 1.27>"@)],
                    ),
                    capa_v(
                        "sha256:e1e2f3a4b5c6"@,
                        "COPY index.html /usr/share/nginx/html/"@,
                        seq![
                            ("/usr/share/nginx/html/index.html"@, "<h1>Welcome to nginx!</h1>"@),
                            ("/usr/share/nginx/html/50x.html"@, "<h1>Error del servidor</h1>"@),
                            ("/etc/nginx/nginx.conf"@, "worker_processes 2;"@),
                        ],
                    ),
                ],
                proceso: "nginx: master process"@,
                mem: 8,
                puerto: 80,
            },
        )
    } else if referencia == "postgres:16"@ {
        Some(
            ImagenV {
                capas: seq![
                    base_debian(),
                    capa_v(
                        "sha256:9c1d2e3f4a5b"@,
                        "RUN apt-get install postgresql-16"@,
                        seq![("/usr/lib/postgresql/16/bin/postgres"@, "<binario postgres 16>"@)],
                    ),
                    capa_v(
                        "sha256:7b8c9d0e1f2a"@,
                        "ENV PGDATA=/var/lib/postgresql/data"@,
                        seq![("/var/lib/postgresql/data/PG_VERSION"@, "16"@)],
                    ),
                ],
                proceso: "postgres"@,
                mem: 40,
                puerto: 5432,
            },
        )
    } else {
        None
    }
}

/// A digest as the registry writes them: ASCII, with the 7 bytes of
/// `sha256:` before the hash.
pub open spec fn digest_valido(d: Seq<char>) -> bool {
    is_ascii_chars(d) && d.len() >= 7
}

/// The digests of the catalog are valid.
pub proof fn lema_catalogo_digests(referencia: Seq<char>)
    ensures
        catalogo_v(referencia) matches Some(e) ==> forall|j: int|
            0 <= j < e.capas.len() ==> digest_valido(#[trigger] e.capas[j].digest),
{
    reveal_strlit("sha256:4f4fb700ef54");
    reveal_strlit("sha256:a2abf6c4d29d");
    reveal_strlit("sha256:e1e2f3a4b5c6");
    reveal_strlit("sha256:9c1d2e3f4a5b");
    reveal_strlit("sha256:7b8c9d0e1f2a");
    assert(digest_valido("sha256:4f4fb700ef54"@));
    assert(digest_valido("sha256:a2abf6c4d29d"@));
    assert(digest_valido("sha256:e1e2f3a4b5c6"@));
    assert(digest_valido("sha256:9c1d2e3f4a5b"@));
    assert(digest_valido("sha256:7b8c9d0e1f2a"@));
}

fn archivo(ruta: &str, contenido: &str) -> (r: (String, String))
    ensures
        r.0@ == ruta@,
        r.1@ == contenido@,
{
    (ruta.to_owned(), contenido.to_owned())
}

fn capa(digest: &str, instruccion: &str, archivos: Vec<(String, String)>) -> (r: CapaImagen)
    ensures
        r@ == capa_v(digest@, instruccion@, vista_archivos(archivos@)),
{
    CapaImagen { digest: digest.to_owned(), instruccion: instruccion.to_owned(), archivos }
}

fn capa_base_debian() -> (r: CapaImagen)
    ensures
        r@ == base_debian(),
{
    let mut a: Vec<(String, String)> = Vec::new();
    a.push(archivo("/bin/sh", "<binario dash>"));
    a.push(archivo("/etc/os-release", "Debian GNU/Linux 12 (bookworm)"));
    a.push(archivo("/lib/x86_64-linux-gnu/libc.so.6", "<glibc 2.36>"));
    let r = capa("sha256:4f4fb700ef54", "FROM debian:bookworm-slim", a);
    proof {
        assert(r@.archivos =~= base_debian().archivos);
    }
    r
}

/// What the remote registry offers for `referencia`.
fn catalogo_remoto(referencia: &str) -> (r: Option<Imagen>)
    ensures
        match r {
            Some(img) => catalogo_v(referencia@) == Some(img@),
            None => catalogo_v(referencia@) is None,
        },
{
    let r = referencia.to_owned();
    if r == "nginx:1.27".to_owned() {
        let mut capas: Vec<CapaImagen> = Vec::new();
        capas.push(capa_base_debian());
        let mut a1: Vec<(String, String)> = Vec::new();
        a1.push(archivo("/usr/sbin/nginx", "<binario nginx 1.27>"));
        capas.push(capa("sha256:a2abf6c4d29d", "RUN apt-get install nginx", a1));
        let mut a2: Vec<(String, String)> = Vec::new();
        a2.push(archivo("/usr/share/nginx/html/index.html", "<h1>Welcome to nginx!</h1>"));
        a2.push(archivo("/usr/share/nginx/html/50x.html", "<h1>Error del servidor</h1>"));
        a2.push(archivo("/etc/nginx/nginx.conf", "worker_processes 2;"));
        capas.push(capa("sha256:e1e2f3a4b5c6", "COPY index.html /usr/share/nginx/html/", a2));
        let img = Imagen {
            capas,
            proceso_principal: "nginx: master process".to_owned(),
            mem_principal_mb: 8,
            puerto: 80,
        };
        proof {
            let e = catalogo_v(referencia@)->0;
            assert(img@.capas[1].archivos =~= e.capas[1].archivos);
            assert(img@.capas[2].archivos =~= e.capas[2].archivos);
            assert(img@.capas =~= e.capas);
        }
        Some(img)
    } else if r == "postgres:16".to_owned() {
        let mut capas: Vec<CapaImagen> = Vec::new();
        capas.push(capa_base_debian());
        let mut a1: Vec<(String, String)> = Vec::new();
        a1.push(archivo("/usr/lib/postgresql/16/bin/postgres", "<binario postgres 16>"));
        capas.push(capa("sha256:9c1d2e3f4a5b", "RUN apt-get install postgresql-16", a1));
        let mut a2: Vec<(String, String)> = Vec::new();
        a2.push(archivo("/var/lib/postgresql/data/PG_VERSION", "16"));
        capas.push(capa("sha256:7b8c9d0e1f2a", "ENV PGDATA=/var/lib/postgresql/data", a2));
        let img = Imagen {
            capas,
            proceso_principal: "postgres".to_owned(),
            mem_principal_mb: 40,
            puerto: 5432,
        };
        proof {
            let e = catalogo_v(referencia@)->0;
            assert(img@.capas[1].archivos =~= e.capas[1].archivos);
            assert(img@.capas[2].archivos =~= e.capas[2].archivos);
            assert(img@.capas =~= e.capas);
        }
        Some(img)
    } else {
        None
    }
}

// ------------------------------------------------------------------------
// The local registry
// ------------------------------------------------------------------------

/// Layers of a pull, in order, given the layers already kept: each new one
/// is kept; the image gets the kept version. Gives the layers kept after,
/// the report (digest, instruction, whether it was already there) and the
/// layers of the image.
pub open spec fn bajar_capas(c: Map<Seq<char>, EntradaV>, es: Seq<CapaV>) -> (
    Map<Seq<char>, EntradaV>,
    Seq<(Seq<char>, Seq<char>, bool)>,
    Seq<CapaV>,
)
    decreases es.len(),
{
    if es.len() == 0 {
        (c, Seq::empty(), Seq::empty())
    } else {
        let (c1, inf, cs) = bajar_capas(c, es.drop_last());
        let e = es.last();
        let ya = c1.dom().contains(e.digest);
        let c2 = if ya {
            c1
        } else {
            c1.insert(e.digest, EntradaV { capa: e, prestada: 0 })
        };
        (c2, inf.push((e.digest, e.instruccion, ya)), cs.push(c2[e.digest].capa))
    }
}

/// Times a layer with digest `d` appears in `cs`.
pub open spec fn ocurrencias(cs: Seq<CapaV>, d: Seq<char>) -> nat
    decreases cs.len(),
{
    if cs.len() == 0 {
        0
    } else {
        ocurrencias(cs.drop_last(), d) + (if cs.last().digest == d {
            1nat
        } else {
            0nat
        })
    }
}

/// Times the images of `ls` use a layer with digest `d`.
pub open spec fn usos(ls: Seq<(Seq<char>, ImagenV)>, d: Seq<char>) -> nat
    decreases ls.len(),
{
    if ls.len() == 0 {
        0
    } else {
        usos(ls.drop_last(), d) + ocurrencias(ls.last().1.capas, d)
    }
}

/// Text of a reference that the remote registry does not have.
pub open spec fn no_encontrada(referencia: Seq<char>) -> Seq<char> {
    "imagen '"@ + referencia + "' no encontrada en el registro"@
}

pub open spec fn vista_informe(s: Seq<(String, String, bool)>) -> Seq<(Seq<char>, Seq<char>, bool)> {
    s.map_values(|e: (String, String, bool)| (e.0@, e.1@, e.2))
}

pub open spec fn vista_uso(s: Seq<(String, String, usize)>) -> Seq<(Seq<char>, Seq<char>, usize)> {
    s.map_values(|e: (String, String, usize)| (e.0@, e.1@, e.2))
}

pub open spec fn vista_cache(s: Seq<(String, CapaImagen, usize)>) -> Seq<(Seq<char>, EntradaV)> {
    s.map_values(|e: (String, CapaImagen, usize)| (e.0@, EntradaV { capa: e.1@, prestada: e.2 }))
}

pub open spec fn vista_locales(s: Seq<(String, Imagen)>) -> Seq<(Seq<char>, ImagenV)> {
    s.map_values(|e: (String, Imagen)| (e.0@, e.1@))
}

/// A layer kept before a pull is still kept, unchanged, after it.
pub proof fn lema_bajar_capas_conserva(c: Map<Seq<char>, EntradaV>, es: Seq<CapaV>, d: Seq<char>)
    requires
        c.dom().contains(d),
    ensures
        bajar_capas(c, es).0.dom().contains(d),
        bajar_capas(c, es).0[d] == c[d],
    decreases es.len(),
{
    if es.len() > 0 {
        lema_bajar_capas_conserva(c, es.drop_last(), d);
    }
}

/// Pulling an image whose layers are all kept downloads nothing: every
/// layer is reported as already there, the kept layers stay as they were
/// and the image gets the kept versions.
pub proof fn ley_pull_reusa(c: Map<Seq<char>, EntradaV>, es: Seq<CapaV>)
    requires
        forall|k: int| 0 <= k < es.len() ==> c.dom().contains(#[trigger] es[k].digest),
    ensures
        bajar_capas(c, es).0 == c,
        bajar_capas(c, es).1.len() == es.len(),
        bajar_capas(c, es).2.len() == es.len(),
        forall|k: int| 0 <= k < es.len() ==> (#[trigger] bajar_capas(c, es).1[k]).2,
        forall|k: int| 0 <= k < es.len() ==> #[trigger] bajar_capas(c, es).2[k] == c[es[k].digest].capa,
    decreases es.len(),
{
    if es.len() > 0 {
        let r = es.drop_last();
        assert forall|k: int| 0 <= k < r.len() implies c.dom().contains(#[trigger] r[k].digest) by {
            assert(r[k] == es[k]);
        }
        ley_pull_reusa(c, r);
        assert(c.dom().contains(es[es.len() - 1].digest));
        let (c1, inf, cs) = bajar_capas(c, r);
        assert forall|k: int| 0 <= k < es.len() implies (#[trigger] bajar_capas(c, es).1[k]).2 by {
            if k < r.len() {
                assert(bajar_capas(c, es).1[k] == inf[k]);
            }
        }
        assert forall|k: int| 0 <= k < es.len() implies #[trigger] bajar_capas(c, es).2[k] == c[es[k].digest].capa by {
            if k < r.len() {
                assert(bajar_capas(c, es).2[k] == cs[k]);
                assert(r[k] == es[k]);
            }
        }
    }
}

/// After a pull every layer of the image is kept, and the image holds the
/// kept version of each.
pub proof fn lema_bajar_capas_guarda(c: Map<Seq<char>, EntradaV>, es: Seq<CapaV>)
    ensures
        bajar_capas(c, es).2.len() == es.len(),
        forall|k: int| 0 <= k < es.len() ==> bajar_capas(c, es).0.dom().contains(#[trigger] es[k].digest),
        forall|k: int|
            0 <= k < es.len() ==> #[trigger] bajar_capas(c, es).2[k] == bajar_capas(c, es).0[es[k].digest].capa,
    decreases es.len(),
{
    if es.len() > 0 {
        let r = es.drop_last();
        lema_bajar_capas_guarda(c, r);
        let (c1, inf, cs) = bajar_capas(c, r);
        let (c2, inf2, cs2) = bajar_capas(c, es);
        assert forall|d: Seq<char>| c1.dom().contains(d) implies c2.dom().contains(d) && #[trigger] c2[d] == c1[d] by {}
        assert forall|k: int| 0 <= k < es.len() implies c2.dom().contains(#[trigger] es[k].digest) by {
            if k < r.len() {
                assert(r[k] == es[k]);
            }
        }
        assert forall|k: int| 0 <= k < es.len() implies #[trigger] cs2[k] == c2[es[k].digest].capa by {
            if k < r.len() {
                assert(r[k] == es[k]);
                assert(cs2[k] == cs[k]);
            }
        }
    }
}

/// Pulling the same image a second time downloads nothing: every layer is
/// reported as already kept, the kept layers (and how many containers hold
/// each) stay as the first pull left them, and the image gets the same
/// layers as the first pull gave it.
pub proof fn ley_segundo_pull(c: Map<Seq<char>, EntradaV>, es: Seq<CapaV>)
    ensures
        ({
            let (c1, _, cs1) = bajar_capas(c, es);
            let (c2, inf2, cs2) = bajar_capas(c1, es);
            &&& c2 == c1
            &&& inf2.len() == es.len()
            &&& forall|k: int| 0 <= k < es.len() ==> (#[trigger] inf2[k]).2
            &&& cs2 == cs1
        }),
{
    lema_bajar_capas_guarda(c, es);
    let (c1, _, cs1) = bajar_capas(c, es);
    ley_pull_reusa(c1, es);
    let cs2 = bajar_capas(c1, es).2;
    assert(cs2 =~= cs1);
}

/// A registry that has just pulled `referencia` (with `e` in the remote
/// catalog) meets both conditions under which `pull` promises to leave
/// the kept layers and the images, and so the table of layer use, exactly
/// as they are: every layer of `e` is kept, and the image already holds
/// the layers that pulling it again would give it.
pub proof fn ley_pull_repetido(
    m0: Map<Seq<char>, EntradaV>,
    imagenes0: Map<Seq<char>, ImagenV>,
    e: ImagenV,
    referencia: Seq<char>,
    cache1: Seq<(Seq<char>, EntradaV)>,
    imagenes1: Seq<(Seq<char>, ImagenV)>,
)
    requires
        mapa_de(cache1) == bajar_capas(m0, e.capas).0,
        mapa_de(imagenes1) == imagenes0.insert(referencia, ImagenV { capas: bajar_capas(m0, e.capas).2, ..e }),
    ensures
        forall|j: int| 0 <= j < e.capas.len() ==> mapa_de(cache1).dom().contains(#[trigger] e.capas[j].digest),
        mapa_de(imagenes1).dom().contains(referencia),
        mapa_de(imagenes1)[referencia] == (ImagenV { capas: bajar_capas(mapa_de(cache1), e.capas).2, ..e }),
        bajar_capas(mapa_de(cache1), e.capas).0 == mapa_de(cache1),
        forall|j: int| 0 <= j < e.capas.len() ==> (#[trigger] bajar_capas(mapa_de(cache1), e.capas).1[j]).2,
{
    lema_bajar_capas_guarda(m0, e.capas);
    ley_segundo_pull(m0, e.capas);
}

/// A row of the table of layer use: digest, instruction and references.
pub open spec fn fila_uso(ls: Seq<(Seq<char>, ImagenV)>, e: (Seq<char>, EntradaV)) -> (Seq<char>, Seq<char>, usize) {
    (e.0, e.1.capa.instruccion, (usos(ls, e.0) + e.1.prestada) as usize)
}

pub open spec fn tabla_uso(c: Seq<(Seq<char>, EntradaV)>, ls: Seq<(Seq<char>, ImagenV)>) -> Seq<(Seq<char>, Seq<char>, usize)> {
    Seq::new(c.len(), |i: int| fila_uso(ls, c[i]))
}

/// The kept layers after one more container holds the layers `cs`.
pub open spec fn prestar(c: Seq<(Seq<char>, EntradaV)>, cs: Seq<CapaV>) -> Seq<(Seq<char>, EntradaV)> {
    Seq::new(
        c.len(),
        |i: int| (c[i].0, EntradaV { prestada: (c[i].1.prestada + ocurrencias(cs, c[i].0)) as usize, ..c[i].1 }),
    )
}

/// The occurrences in two lists of layers put together add up.
pub proof fn lema_ocurrencias_concat(a: Seq<CapaV>, b: Seq<CapaV>, d: Seq<char>)
    ensures
        ocurrencias(a + b, d) == ocurrencias(a, d) + ocurrencias(b, d),
    decreases b.len(),
{
    if b.len() == 0 {
        assert(a + b =~= a);
    } else {
        assert((a + b).drop_last() =~= a + b.drop_last());
        lema_ocurrencias_concat(a, b.drop_last(), d);
    }
}

/// Lending the layers `cs` to one more container adds to every kept layer
/// exactly the times it appears in `cs`, and changes nothing else: a layer
/// not in `cs` keeps its count, a layer in `cs` once gains one reference,
/// whatever it had before.
pub proof fn ley_prestar_suma(c: Seq<(Seq<char>, EntradaV)>, cs: Seq<CapaV>)
    requires
        forall|i: int| 0 <= i < c.len() ==> (#[trigger] c[i]).1.prestada + ocurrencias(cs, c[i].0) <= usize::MAX,
    ensures
        prestar(c, cs).len() == c.len(),
        forall|i: int|
            0 <= i < c.len() ==> (#[trigger] prestar(c, cs)[i]).0 == c[i].0 && prestar(c, cs)[i].1.capa == c[i].1.capa
                && prestar(c, cs)[i].1.prestada == c[i].1.prestada + ocurrencias(cs, c[i].0),
{
}

/// In the table of layer use, a container that holds the layers `cs` adds
/// to each kept layer's references exactly the times the layer appears in
/// `cs`: one for each layer of the image it was started from.
pub proof fn ley_prestar_tabla(c: Seq<(Seq<char>, EntradaV)>, ls: Seq<(Seq<char>, ImagenV)>, cs: Seq<CapaV>)
    requires
        forall|i: int|
            0 <= i < c.len() ==> usos(ls, (#[trigger] c[i]).0) + c[i].1.prestada + ocurrencias(cs, c[i].0) <= usize::MAX,
    ensures
        tabla_uso(prestar(c, cs), ls).len() == c.len(),
        forall|i: int|
            0 <= i < c.len() ==> (#[trigger] tabla_uso(prestar(c, cs), ls)[i]).2 == tabla_uso(c, ls)[i].2 + ocurrencias(
                cs,
                c[i].0,
            ) && tabla_uso(prestar(c, cs), ls)[i].0 == tabla_uso(c, ls)[i].0,
{
}

/// Lending `a` and then `b` counts the same as lending both at once: each
/// container adds its own references, never merged with those of another.
pub proof fn ley_prestar_dos_veces(c: Seq<(Seq<char>, EntradaV)>, a: Seq<CapaV>, b: Seq<CapaV>)
    requires
        forall|i: int| 0 <= i < c.len() ==> (#[trigger] c[i]).1.prestada + ocurrencias(a + b, c[i].0) <= usize::MAX,
    ensures
        prestar(prestar(c, a), b) == prestar(c, a + b),
{
    assert forall|i: int| 0 <= i < c.len() implies #[trigger] prestar(prestar(c, a), b)[i] == prestar(c, a + b)[i] by {
        lema_ocurrencias_concat(a, b, c[i].0);
    }
    assert(prestar(prestar(c, a), b) =~= prestar(c, a + b));
}

proof fn lema_usos_prefijo(ls: Seq<(Seq<char>, ImagenV)>, k: int, d: Seq<char>)
    requires
        0 <= k <= ls.len(),
    ensures
        usos(ls.take(k), d) <= usos(ls, d),
    decreases ls.len(),
{
    if k < ls.len() {
        assert(ls.drop_last().take(k) =~= ls.take(k));
        lema_usos_prefijo(ls.drop_last(), k, d);
    } else {
        assert(ls.take(k) =~= ls);
    }
}

impl Registro {
    /// Layers kept, in increasing order of digest, with how many
    /// containers hold each.
    pub closed spec fn cache(&self) -> Seq<(Seq<char>, EntradaV)> {
        vista_cache(self.capas@)
    }

    /// Images pulled, by reference.
    pub closed spec fn imagenes(&self) -> Seq<(Seq<char>, ImagenV)> {
        vista_locales(self.locales@)
    }

    pub closed spec fn wf(&self) -> bool {
        &&& ordenada(self.cache())
        &&& forall|i: int| 0 <= i < self.cache().len() ==> #[trigger] self.cache()[i].0 == self.cache()[i].1.capa.digest
        &&& forall|i: int| 0 <= i < self.cache().len() ==> digest_valido(#[trigger] self.cache()[i].0)
        &&& claves_unicas(self.imagenes())
        &&& forall|i: int, j: int|
            0 <= i < self.imagenes().len() && 0 <= j < self.imagenes()[i].1.capas.len() ==> {
                let d = (#[trigger] self.imagenes()[i].1.capas[j]).digest;
                &&& mapa_de(self.cache()).dom().contains(d)
                &&& mapa_de(self.cache())[d].capa == self.imagenes()[i].1.capas[j]
            }
    }

    /// The layers of a pulled image have valid digests.
    pub proof fn lema_digests_imagen(&self, referencia: Seq<char>)
        requires
            self.wf(),
            mapa_de(self.imagenes()).dom().contains(referencia),
        ensures
            forall|j: int|
                0 <= j < mapa_de(self.imagenes())[referencia].capas.len() ==> digest_valido(
                    #[trigger] mapa_de(self.imagenes())[referencia].capas[j].digest,
                ),
    {
        let ls = self.imagenes();
        let c = self.cache();
        lema_mapa_de(ls);
        crate::kernel::lema_ordenada_unicas(c);
        lema_mapa_de(c);
        let q = choose|q: int| 0 <= q < ls.len() && ls[q].0 == referencia;
        assert(mapa_de(ls)[ls[q].0] == ls[q].1);
        assert forall|j: int| 0 <= j < ls[q].1.capas.len() implies digest_valido(#[trigger] ls[q].1.capas[j].digest) by {
            let d = ls[q].1.capas[j].digest;
            assert(mapa_de(c).dom().contains(d));
            let p = choose|p: int| 0 <= p < c.len() && c[p].0 == d;
            assert(digest_valido(c[p].0));
        }
    }

    pub fn nuevo() -> (r: Registro)
        ensures
            r.wf(),
            r.cache() == Seq::<(Seq<char>, EntradaV)>::empty(),
            r.imagenes() == Seq::<(Seq<char>, ImagenV)>::empty(),
    {
        let r = Registro { locales: Vec::new(), capas: Vec::new() };
        proof {
            assert(r.cache() =~= Seq::<(Seq<char>, EntradaV)>::empty());
            assert(r.imagenes() =~= Seq::<(Seq<char>, ImagenV)>::empty());
        }
        r
    }

    fn pos_cache(&self, d: &String) -> (r: Option<usize>)
        ensures
            match r {
                Some(i) => i < self.cache().len() && self.cache()[i as int].0 == d@,
                None => forall|i: int| 0 <= i < self.cache().len() ==> (#[trigger] self.cache()[i]).0 != d@,
            },
    {
        let mut i: usize = 0;
        while i < self.capas.len()
            invariant
                i <= self.capas@.len(),
                forall|j: int| 0 <= j < i ==> (#[trigger] self.cache()[j]).0 != d@,
            decreases self.capas@.len() - i,
        {
            if self.capas[i].0 == *d {
                return Some(i);
            }
            i = i + 1;
        }
        None
    }

    /// Keeps a layer that was not kept, in its place by digest.
    fn insertar_capa(&mut self, c: CapaImagen)
        requires
            old(self).wf(),
            !mapa_de(old(self).cache()).dom().contains(c@.digest),
            digest_valido(c@.digest),
        ensures
            final(self).wf(),
            mapa_de(final(self).cache()) == mapa_de(old(self).cache()).insert(
                c@.digest,
                EntradaV { capa: c@, prestada: 0 },
            ),
            final(self).imagenes() == old(self).imagenes(),
    {
        let ghost s0 = self.cache();
        let ghost cv = c@;
        proof {
            crate::kernel::lema_ordenada_unicas(s0);
            lema_mapa_de(s0);
            assert forall|q: int| 0 <= q < s0.len() implies s0[q].0 != cv.digest by {
                assert(mapa_de(s0).dom().contains(s0[q].0));
            }
        }
        let mut j: usize = 0;
        while j < self.capas.len() && !menor(c.digest.as_str(), self.capas[j].0.as_str())
            invariant
                j <= s0.len(),
                self.cache() == s0,
                self.capas@.len() == s0.len(),
                cv == c@,
                forall|q: int| 0 <= q < j ==> texto_menor(s0[q].0, cv.digest),
                forall|q: int| 0 <= q < s0.len() ==> s0[q].0 != cv.digest,
            decreases s0.len() - j,
        {
            proof {
                lema_texto_orden(s0[j as int].0, cv.digest, cv.digest);
            }
            j = j + 1;
        }
        let clave = c.digest.clone();
        self.capas.insert(j, (clave, c, 0));
        proof {
            let e = EntradaV { capa: cv, prestada: 0 };
            let s1 = self.cache();
            assert(s1 =~= s0.insert(j as int, (cv.digest, e)));
            assert forall|a: int, b: int| 0 <= a < b < s1.len() implies texto_menor(s1[a].0, s1[b].0) by {
                if b < j {
                } else if b == j {
                } else if a < j {
                    lema_texto_orden(s0[a].0, cv.digest, s0[j as int].0);
                    if b - 1 > j {
                        lema_texto_orden(s0[a].0, s0[j as int].0, s0[b - 1].0);
                    }
                } else if a == j {
                    if b - 1 > j {
                        lema_texto_orden(cv.digest, s0[j as int].0, s0[b - 1].0);
                    }
                }
            }
            assert forall|i: int| 0 <= i < s1.len() implies #[trigger] s1[i].0 == s1[i].1.capa.digest
                && digest_valido(s1[i].0) by {
                if i < j {
                    assert(s1[i] == s0[i]);
                } else if i > j {
                    assert(s1[i] == s0[i - 1]);
                }
            }
            lema_mapa_insertar(s0, j as int, cv.digest, e);
            let im = self.imagenes();
            assert forall|i: int, k: int|
                0 <= i < im.len() && 0 <= k < im[i].1.capas.len() implies {
                    let d = (#[trigger] im[i].1.capas[k]).digest;
                    &&& mapa_de(s1).dom().contains(d)
                    &&& mapa_de(s1)[d].capa == im[i].1.capas[k]
                } by {
                let d = im[i].1.capas[k].digest;
                assert(mapa_de(s0).dom().contains(d));
                assert(d != cv.digest);
            }
        }
    }

    /// Downloads an image. Gives, for each layer, (digest, instruction,
    /// whether it was already there).
    pub fn pull(&mut self, referencia: &str) -> (r: Result<Vec<(String, String, bool)>, String>)
        requires
            old(self).wf(),
        ensures
            final(self).wf(),
            match catalogo_v(referencia@) {
                None => {
                    &&& r matches Err(m) && m@ == no_encontrada(referencia@)
                    &&& final(self).cache() == old(self).cache()
                    &&& final(self).imagenes() == old(self).imagenes()
                },
                Some(e) => {
                    let (c2, inf, cs) = bajar_capas(mapa_de(old(self).cache()), e.capas);
                    &&& r matches Ok(v) && vista_informe(v@) == inf
                    &&& mapa_de(final(self).cache()) == c2
                    &&& mapa_de(final(self).imagenes()) == mapa_de(old(self).imagenes()).insert(
                        referencia@,
                        ImagenV { capas: cs, ..e },
                    )
                    &&& (forall|j: int|
                        0 <= j < e.capas.len() ==> mapa_de(old(self).cache()).dom().contains(
                            #[trigger] e.capas[j].digest,
                        )) ==> final(self).cache() == old(self).cache()
                    &&& (mapa_de(old(self).imagenes()).dom().contains(referencia@) && mapa_de(
                        old(self).imagenes(),
                    )[referencia@] == (ImagenV { capas: cs, ..e })) ==> final(self).imagenes()
                        == old(self).imagenes()
                },
            },
    {
        let img = match catalogo_remoto(referencia) {
            Some(img) => img,
            None => {
                let mut m = "imagen '".to_owned();
                agregar(&mut m, referencia);
                agregar(&mut m, "' no encontrada en el registro");
                proof {
                    assert(m@ =~= no_encontrada(referencia@));
                }
                return Err(m);
            },
        };
        let ghost e = img@;
        let ghost m0 = mapa_de(self.cache());
        proof {
            lema_catalogo_digests(referencia@);
            assert(catalogo_v(referencia@) == Some(e));
            assert forall|j: int| 0 <= j < e.capas.len() implies digest_valido(#[trigger] e.capas[j].digest) by {
                let ee = catalogo_v(referencia@)->0;
                assert(ee == e);
                assert(digest_valido(ee.capas[j].digest));
            }
        }
        let mut informe: Vec<(String, String, bool)> = Vec::new();
        let mut capas: Vec<CapaImagen> = Vec::new();
        let mut k: usize = 0;
        proof {
            assert(e.capas.take(0) =~= Seq::<CapaV>::empty());
            assert(vista_informe(informe@) =~= Seq::<(Seq<char>, Seq<char>, bool)>::empty());
            assert(vista_capas(capas@) =~= Seq::<CapaV>::empty());
        }
        while k < img.capas.len()
            invariant
                k <= e.capas.len(),
                img@ == e,
                forall|j: int| 0 <= j < e.capas.len() ==> digest_valido(#[trigger] e.capas[j].digest),
                capas@.len() == k,
                informe@.len() == k,
                self.wf(),
                self.imagenes() == old(self).imagenes(),
                m0 == mapa_de(old(self).cache()),
                (forall|j: int| 0 <= j < e.capas.len() ==> m0.dom().contains(#[trigger] e.capas[j].digest))
                    ==> self.cache() == old(self).cache(),
                ({
                    let (c2, inf, cs) = bajar_capas(m0, e.capas.take(k as int));
                    &&& mapa_de(self.cache()) == c2
                    &&& vista_informe(informe@) == inf
                    &&& vista_capas(capas@) == cs
                }),
                forall|j: int| 0 <= j < k ==> mapa_de(self.cache()).dom().contains(#[trigger] vista_capas(capas@)[j].digest)
                    && mapa_de(self.cache())[vista_capas(capas@)[j].digest].capa == vista_capas(capas@)[j],
            decreases e.capas.len() - k,
        {
            let ghost c1 = mapa_de(self.cache());
            let ghost inf0 = informe@;
            let ghost cs0 = capas@;
            proof {
                assert(e.capas.take(k as int + 1).drop_last() =~= e.capas.take(k as int));
                assert(e.capas.take(k as int + 1).last() == e.capas[k as int]);
                crate::kernel::lema_ordenada_unicas(self.cache());
                lema_mapa_de(self.cache());
            }
            let capa = &img.capas[k];
            let ya = match self.pos_cache(&capa.digest) {
                Some(_) => true,
                None => false,
            };
            proof {
                if ya {
                    assert(c1.dom().contains(capa@.digest));
                } else if c1.dom().contains(capa@.digest) {
                    let q = choose|q: int| 0 <= q < self.cache().len() && self.cache()[q].0 == capa@.digest;
                }
                if forall|j: int| 0 <= j < e.capas.len() ==> m0.dom().contains(#[trigger] e.capas[j].digest) {
                    assert(m0.dom().contains(e.capas[k as int].digest));
                }
            }
            if !ya {
                self.insertar_capa(capa.copia());
            }
            let ghost c2 = mapa_de(self.cache());
            proof {
                crate::kernel::lema_ordenada_unicas(self.cache());
                lema_mapa_de(self.cache());
                assert(c2.dom().contains(capa@.digest));
            }
            let i = match self.pos_cache(&capa.digest) {
                Some(i) => i,
                None => 0,
            };
            proof {
                assert(self.cache()[i as int].0 == capa@.digest);
                assert(c2[capa@.digest] == self.cache()[i as int].1);
            }
            let guardada = self.capas[i].1.copia();
            informe.push((capa.digest.clone(), capa.instruccion.clone(), ya));
            capas.push(guardada);
            proof {
                assert(vista_informe(informe@) =~= vista_informe(inf0).push((capa@.digest, capa@.instruccion, ya)));
                assert(vista_capas(capas@) =~= vista_capas(cs0).push(c2[capa@.digest].capa));
                assert forall|j: int| 0 <= j < k + 1 implies c2.dom().contains(#[trigger] vista_capas(capas@)[j].digest)
                    && c2[vista_capas(capas@)[j].digest].capa == vista_capas(capas@)[j] by {
                    if j < k {
                        assert(vista_capas(capas@)[j] == vista_capas(cs0)[j]);
                        let d = vista_capas(cs0)[j].digest;
                        assert(c1.dom().contains(d));
                        if !ya {
                            assert(d != capa@.digest);
                        }
                    } else {
                        assert(self.cache()[i as int].1.capa.digest == capa@.digest);
                    }
                }
            }
            k = k + 1;
        }
        proof {
            assert(e.capas.take(k as int) =~= e.capas);
        }
        let nueva = Imagen {
            capas,
            proceso_principal: img.proceso_principal,
            mem_principal_mb: img.mem_principal_mb,
            puerto: img.puerto,
        };
        let ghost nv = nueva@;
        let ghost l0 = self.imagenes();
        proof {
            lema_mapa_de(l0);
        }
        match posicion(&self.locales, referencia) {
            Some(i) => {
                self.locales.set(i, (referencia.to_owned(), nueva));
                proof {
                    assert(self.imagenes() =~= l0.update(i as int, (l0[i as int].0, nv)));
                    lema_mapa_actualizar(l0, i as int, nv);
                    if mapa_de(l0)[referencia@] == nv {
                        assert(mapa_de(l0).dom().contains(l0[i as int].0));
                        assert(mapa_de(l0)[l0[i as int].0] == l0[i as int].1);
                        assert(self.imagenes() =~= l0);
                    }
                }
            },
            None => {
                self.locales.push((referencia.to_owned(), nueva));
                proof {
                    assert(self.imagenes() =~= l0.insert(l0.len() as int, (referencia@, nv)));
                    assert forall|q: int| 0 <= q < l0.len() implies (#[trigger] l0[q]).0 != referencia@ by {
                        assert(l0[q].0 == self.locales@[q].0@);
                    }
                    lema_mapa_insertar(l0, l0.len() as int, referencia@, nv);
                }
            },
        }
        proof {
            let im = self.imagenes();
            let cm = mapa_de(self.cache());
            lema_mapa_de(im);
            lema_mapa_de(l0);
            assert forall|i: int, j: int|
                0 <= i < im.len() && 0 <= j < im[i].1.capas.len() implies {
                    let d = (#[trigger] im[i].1.capas[j]).digest;
                    &&& cm.dom().contains(d)
                    &&& cm[d].capa == im[i].1.capas[j]
                } by {
                if im[i].0 == referencia@ {
                    assert(im[i].1 == nv);
                } else {
                    assert(mapa_de(im).dom().contains(im[i].0));
                    assert(mapa_de(im)[im[i].0] == im[i].1);
                    assert(mapa_de(l0).dom().contains(im[i].0));
                    let q = choose|q: int| 0 <= q < l0.len() && l0[q].0 == im[i].0;
                    assert(mapa_de(l0).dom().contains(l0[q].0));
                    assert(l0[q].1 == im[i].1);
                    let d = l0[q].1.capas[j].digest;
                    assert(m0.dom().contains(d) && m0[d].capa == l0[q].1.capas[j]);
                    crate::imagen::lema_bajar_capas_conserva(m0, e.capas, d);
                    assert(cm == bajar_capas(m0, e.capas).0);
                }
            }
        }
        Ok(informe)
    }

    /// How many times the layers `capas` use a layer with digest `d`.
    fn contar_en(capas: &Vec<CapaImagen>, d: &String) -> (n: usize)
        ensures
            n == ocurrencias(vista_capas(capas@), d@),
    {
        let ghost cs = vista_capas(capas@);
        let mut n: usize = 0;
        let mut j: usize = 0;
        while j < capas.len()
            invariant
                j <= cs.len(),
                cs == vista_capas(capas@),
                n == ocurrencias(cs.take(j as int), d@),
                n <= j,
            decreases cs.len() - j,
        {
            proof {
                assert(cs.take(j as int + 1).drop_last() =~= cs.take(j as int));
                assert(cs.take(j as int + 1).last() == cs[j as int]);
            }
            if capas[j].digest == *d {
                n = n + 1;
            }
            j = j + 1;
        }
        proof {
            assert(cs.take(j as int) =~= cs);
        }
        n
    }

    /// How many times the pulled images use a layer with digest `d`.
    fn usos_de(&self, d: &String) -> (n: usize)
        requires
            usos(self.imagenes(), d@) <= usize::MAX,
        ensures
            n == usos(self.imagenes(), d@),
    {
        let ghost ls = self.imagenes();
        let mut n: usize = 0;
        let mut i: usize = 0;
        while i < self.locales.len()
            invariant
                i <= ls.len(),
                ls == self.imagenes(),
                usos(ls, d@) <= usize::MAX,
                n == usos(ls.take(i as int), d@),
            decreases ls.len() - i,
        {
            proof {
                assert(ls.take(i as int + 1).drop_last() =~= ls.take(i as int));
                assert(ls.take(i as int + 1).last() == ls[i as int]);
                lema_usos_prefijo(ls, i as int + 1, d@);
            }
            let c = Self::contar_en(&self.locales[i].1.capas, d);
            n = n + c;
            i = i + 1;
        }
        proof {
            assert(ls.take(i as int) =~= ls);
        }
        n
    }

    /// How many references (images and containers) point to each kept
    /// layer, in the order of their digests.
    pub fn uso_capas(&self) -> (r: Vec<(String, String, usize)>)
        requires
            self.wf(),
            forall|i: int| 0 <= i < self.cache().len() ==> usos(self.imagenes(), #[trigger] self.cache()[i].0)
                + self.cache()[i].1.prestada <= usize::MAX,
        ensures
            vista_uso(r@) == tabla_uso(self.cache(), self.imagenes()),
    {
        let ghost c = self.cache();
        let mut r: Vec<(String, String, usize)> = Vec::new();
        let mut i: usize = 0;
        while i < self.capas.len()
            invariant
                i <= c.len(),
                c == self.cache(),
                r@.len() == i,
                forall|q: int| 0 <= q < c.len() ==> usos(self.imagenes(), #[trigger] c[q].0) + c[q].1.prestada <= usize::MAX,
                vista_uso(r@) == tabla_uso(c, self.imagenes()).take(i as int),
            decreases c.len() - i,
        {
            let ghost antes = r@;
            proof {
                assert(c[i as int].0 == self.capas@[i as int].0@);
            }
            let u = self.usos_de(&self.capas[i].0);
            let fila = (self.capas[i].0.clone(), self.capas[i].1.instruccion.clone(), u + self.capas[i].2);
            r.push(fila);
            i = i + 1;
            proof {
                assert forall|q: int| 0 <= q < i implies #[trigger] vista_uso(r@)[q] == tabla_uso(c, self.imagenes()).take(i as int)[q] by {
                    if q < i - 1 {
                        assert(r@[q] == antes[q]);
                        assert(vista_uso(antes)[q] == tabla_uso(c, self.imagenes()).take(i - 1)[q]);
                    }
                }
                assert(vista_uso(r@) =~= tabla_uso(c, self.imagenes()).take(i as int));
            }
        }
        proof {
            assert(tabla_uso(c, self.imagenes()).take(i as int) =~= tabla_uso(c, self.imagenes()));
        }
        r
    }

    /// Copies of the layers of image `referencia`, now held by one more
    /// container.
    pub fn prestar_capas(&mut self, referencia: &str) -> (r: Vec<CapaImagen>)
        requires
            old(self).wf(),
            mapa_de(old(self).imagenes()).dom().contains(referencia@),
            forall|i: int| 0 <= i < old(self).cache().len() ==> (#[trigger] old(self).cache()[i]).1.prestada
                + ocurrencias(mapa_de(old(self).imagenes())[referencia@].capas, old(self).cache()[i].0)
                <= usize::MAX,
        ensures
            final(self).wf(),
            final(self).imagenes() == old(self).imagenes(),
            vista_capas(r@) == mapa_de(old(self).imagenes())[referencia@].capas,
            final(self).cache() == prestar(old(self).cache(), mapa_de(old(self).imagenes())[referencia@].capas),
    {
        let ghost ls = self.imagenes();
        proof {
            lema_mapa_de(ls);
        }
        let k = match posicion(&self.locales, referencia) {
            Some(k) => k,
            None => {
                proof {
                    let q = choose|q: int| 0 <= q < ls.len() && ls[q].0 == referencia@;
                    assert(ls[q].0 == self.locales@[q].0@);
                }
                0
            },
        };
        proof {
            assert(ls[k as int].0 == referencia@);
            assert(mapa_de(ls).dom().contains(ls[k as int].0));
        }
        let r = copiar_capas(&self.locales[k].1.capas);
        let ghost cs = vista_capas(r@);
        let ghost c0 = self.cache();
        let mut i: usize = 0;
        while i < self.capas.len()
            invariant
                i <= c0.len(),
                self.capas@.len() == c0.len(),
                self.imagenes() == ls,
                vista_capas(r@) == cs,
                cs == mapa_de(ls)[referencia@].capas,
                forall|q: int| 0 <= q < c0.len() ==> (#[trigger] c0[q]).1.prestada + ocurrencias(cs, c0[q].0) <= usize::MAX,
                forall|q: int| 0 <= q < c0.len() ==> #[trigger] self.cache()[q] == if q < i {
                    prestar(c0, cs)[q]
                } else {
                    c0[q]
                },
            decreases c0.len() - i,
        {
            let ghost antes = self.cache();
            proof {
                assert(antes[i as int] == c0[i as int]);
                assert(c0[i as int].0 == self.capas@[i as int].0@);
            }
            let n = Self::contar_en(&r, &self.capas[i].0);
            let (d, capa, p) = self.capas.remove(i);
            self.capas.insert(i, (d, capa, p + n));
            proof {
                assert(self.cache() =~= antes.update(i as int, prestar(c0, cs)[i as int]));
            }
            i = i + 1;
        }
        proof {
            assert(self.cache() =~= prestar(c0, cs));
            let c1 = self.cache();
            assert forall|a: int, b: int| 0 <= a < b < c1.len() implies texto_menor(c1[a].0, c1[b].0) by {
                assert(c1[a].0 == c0[a].0);
                assert(c1[b].0 == c0[b].0);
            }
            crate::kernel::lema_ordenada_unicas(c0);
            crate::kernel::lema_ordenada_unicas(c1);
            lema_mapa_de(c0);
            lema_mapa_de(c1);
            assert forall|i: int, j: int|
                0 <= i < ls.len() && 0 <= j < ls[i].1.capas.len() implies {
                    let d = (#[trigger] ls[i].1.capas[j]).digest;
                    &&& mapa_de(c1).dom().contains(d)
                    &&& mapa_de(c1)[d].capa == ls[i].1.capas[j]
                } by {
                let d = ls[i].1.capas[j].digest;
                assert(mapa_de(c0).dom().contains(d));
                let q = choose|q: int| 0 <= q < c0.len() && c0[q].0 == d;
                assert(mapa_de(c0).dom().contains(c0[q].0));
                assert(mapa_de(c1).dom().contains(c1[q].0));
            }
        }
        r
    }

    /// The pulled image `referencia`, if there is one.
    pub fn obtener(&self, referencia: &str) -> (r: Option<&Imagen>)
        requires
            self.wf(),
        ensures
            match r {
                Some(img) => mapa_de(self.imagenes()).dom().contains(referencia@) && img@ == mapa_de(
                    self.imagenes(),
                )[referencia@],
                None => !mapa_de(self.imagenes()).dom().contains(referencia@),
            },
    {
        proof {
            lema_mapa_de(self.imagenes());
        }
        match posicion(&self.locales, referencia) {
            Some(i) => {
                proof {
                    assert(self.imagenes()[i as int].0 == referencia@);
                    assert(mapa_de(self.imagenes()).dom().contains(self.imagenes()[i as int].0));
                    assert(self.imagenes()[i as int].1 == self.locales@[i as int].1@);
                }
                Some(&self.locales[i].1)
            },
            None => {
                proof {
                    if mapa_de(self.imagenes()).dom().contains(referencia@) {
                        let q = choose|q: int| 0 <= q < self.imagenes().len() && self.imagenes()[q].0 == referencia@;
                        assert(self.imagenes()[q].0 == self.locales@[q].0@);
                    }
                }
                None
            },
        }
    }
}

} // verus!
