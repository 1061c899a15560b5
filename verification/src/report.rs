//! Human-readable reports on certificates, keys and signing requests.
use vstd::prelude::*;
use vstd::string::*;
use crate::clock;
use crate::clock::Moment;
use crate::crypto;
use crate::crypto::{AltName, Certificate, KeyInfo, NameEntry, PrivateKey, PublicKey, RsaInfo, SigningRequest};
use crate::text;

verus! {

/// OpenSSL's numbers for the types of keys that have a name here.
pub const ID_RSA: i32 = 6;

pub const ID_DH: i32 = 28;

pub const ID_DSA: i32 = 116;

pub const ID_EC: i32 = 408;

pub const ID_RSA_PSS: i32 = 912;

pub const ID_X25519: i32 = 1034;

pub const ID_X448: i32 = 1035;

pub const ID_ED25519: i32 = 1087;

pub const ID_ED448: i32 = 1088;

/// One line of a report: the name of a field, filled up to a column of its own, and its value.
pub open spec fn field_text(name: Seq<char>, value: Seq<char>) -> Seq<char> {
    text::padded_right(name, 11) + ": "@ + value + "\n"@
}

/// One attribute of a distinguished name.
pub open spec fn entry_text(e: NameEntry) -> Seq<char> {
    (match e.short {
        Some(s) => s@,
        None => "OID"@,
    }) + "="@ + text::utf8_lossy(e.value@)
}

/// A distinguished name: its attributes in order.
pub open spec fn name_text(entries: Seq<NameEntry>) -> Seq<char> {
    if entries.len() == 0 {
        "<empty>"@
    } else {
        text::joined(Seq::new(entries.len(), |i: int| entry_text(entries[i])), ", "@)
    }
}

/// A distinguished name, cut to at most 32 characters.
pub open spec fn short_name(entries: Seq<NameEntry>) -> Seq<char> {
    let name = name_text(entries);
    if name.len() > 32 {
        name.take(29) + "..."@
    } else {
        name
    }
}

/// The name of a type of keys.
pub open spec fn algorithm_text(id: i32) -> Seq<char> {
    if id == ID_RSA {
        "RSA"@
    } else if id == ID_RSA_PSS {
        "RSA-PSS"@
    } else if id == ID_DSA {
        "DSA"@
    } else if id == ID_DH {
        "DH"@
    } else if id == ID_EC {
        "EC"@
    } else if id == ID_ED25519 {
        "Ed25519"@
    } else if id == ID_ED448 {
        "Ed448"@
    } else if id == ID_X25519 {
        "X25519"@
    } else if id == ID_X448 {
        "X448"@
    } else {
        "unknown"@
    }
}

/// Type and size of a key.
pub open spec fn key_summary_text(k: KeyInfo) -> Seq<char> {
    algorithm_text(k.id) + ", "@ + text::decimal(k.bits as nat) + " bit"@
}

/// Type and size of a key, or why it could not be read.
pub open spec fn key_result_text(k: Result<KeyInfo, String>) -> Seq<char> {
    match k {
        Ok(i) => key_summary_text(i),
        Err(e) => "<error: "@ + e@ + ">"@,
    }
}

/// Bytes as pairs of hexadecimal digits with colons between them.
pub open spec fn hex_spaced_text(bytes: Seq<u8>) -> Seq<char> {
    text::joined(Seq::new(bytes.len(), |i: int| text::hex_pair(bytes[i])), ":"@)
}

/// An IP address: four bytes in decimal with dots, sixteen bytes as eight groups of hexadecimal
/// digits with colons, any other number of bytes as hexadecimal digits alone.
pub open spec fn ip_text(ip: Seq<u8>) -> Seq<char> {
    if ip.len() == 4 {
        text::joined(Seq::new(4, |i: int| text::decimal(ip[i] as nat)), "."@)
    } else if ip.len() == 16 {
        text::joined(
            Seq::new(8, |i: int| text::hex_pair(ip[2 * i]) + text::hex_pair(ip[2 * i + 1])),
            ":"@,
        )
    } else {
        text::hex_text(ip)
    }
}

/// An alternative name of one of the kinds that reports show.
pub open spec fn alt_name_text(a: AltName) -> Option<Seq<char>> {
    if a.dns is Some {
        Some("DNS:"@ + a.dns->0@)
    } else if a.ip is Some {
        Some("IP:"@ + ip_text(a.ip->0@))
    } else if a.email is Some {
        Some("email:"@ + a.email->0@)
    } else {
        None
    }
}

/// The alternative names that reports show, in order.
pub open spec fn alt_name_texts(v: Seq<AltName>) -> Seq<Seq<char>>
    decreases v.len(),
{
    if v.len() == 0 {
        Seq::empty()
    } else {
        let before = alt_name_texts(v.drop_last());
        match alt_name_text(v.last()) {
            Some(t) => before.push(t),
            None => before,
        }
    }
}

/// Notes on the extensions of a certificate.
pub open spec fn extension_texts(c: Certificate) -> Seq<Seq<char>> {
    let notes = Seq::<Seq<char>>::empty();
    let notes = match c.path_length {
        Some(n) => notes.push("basicConstraints: CA, pathlen="@ + text::decimal(n as nat)),
        None => notes,
    };
    let notes = match c.subject_key_id {
        Some(k) => notes.push("SKI: "@ + hex_spaced_text(k@)),
        None => notes,
    };
    match c.authority_key_id {
        Some(k) => notes.push("AKI: "@ + hex_spaced_text(k@)),
        None => notes,
    }
}

/// The lines on an RSA key.
pub open spec fn rsa_text(r: RsaInfo) -> Seq<char> {
    field_text("RSA modulus"@, text::signed_decimal(r.modulus_bits as int) + " bit"@) + field_text(
        "RSA pub exp"@,
        match r.exponent {
            Some(e) => e@,
            None => "<?>"@,
        },
    )
}

/// The end of a certificate's validity, with the days that are left.
pub open spec fn not_after_text(c: Certificate, now: Moment) -> Seq<char> {
    match clock::days_left(c.not_after@, now) {
        Some(days) => c.not_after@ + "  ("@ + text::signed_decimal(days as int)
            + " day(s) remaining)"@,
        None => c.not_after@,
    }
}

/// The report on a certificate at the moment `now`.
pub open spec fn certificate_text(c: Certificate, now: Moment) -> Seq<char> {
    let t = field_text("Subject"@, name_text(c.subject@)) + field_text(
        "Issuer"@,
        name_text(c.issuer@),
    ) + field_text(
        "Serial"@,
        match c.serial {
            Some(s) => s@,
            None => "<?>"@,
        },
    ) + field_text("Not before"@, c.not_before@) + field_text("Not after"@, not_after_text(c, now))
        + field_text(
        "Sig algo"@,
        match c.signature {
            Some(s) => s@,
            None => "unknown"@,
        },
    ) + field_text("Pub key"@, key_result_text(c.key));
    let t = match c.alt_names {
        Some(v) => if alt_name_texts(v@).len() > 0 {
            t + field_text("SANs"@, text::joined(alt_name_texts(v@), ", "@))
        } else {
            t
        },
        None => t,
    };
    let t = if extension_texts(c).len() > 0 {
        t + field_text("Extensions"@, text::joined(extension_texts(c), "; "@))
    } else {
        t
    };
    let t = match c.sha256 {
        Some(d) => t + field_text("SHA-256"@, hex_spaced_text(d@)),
        None => t,
    };
    match c.rsa {
        Some(r) => t + rsa_text(r),
        None => t,
    }
}

/// What a PEM label stands for.
pub open spec fn label_text(label: Seq<char>) -> Seq<char> {
    if is_certificate_label(label) {
        "X.509 certificate"@
    } else if label == "PRIVATE KEY"@ {
        "private key (PKCS#8)"@
    } else if label == "ENCRYPTED PRIVATE KEY"@ {
        "encrypted private key (PKCS#8)"@
    } else if label == "RSA PRIVATE KEY"@ {
        "private key (PKCS#1 RSA)"@
    } else if label == "EC PRIVATE KEY"@ {
        "private key (SEC1 EC)"@
    } else if label == "PUBLIC KEY"@ {
        "public key (SPKI)"@
    } else if label == "RSA PUBLIC KEY"@ {
        "public key (PKCS#1 RSA)"@
    } else if label == "EC PUBLIC KEY"@ {
        "public key (EC point)"@
    } else if is_request_label(label) {
        "CSR (PKCS#10)"@
    } else {
        "unrecognized"@
    }
}

/// The PEM labels of certificates.
pub open spec fn is_certificate_label(label: Seq<char>) -> bool {
    label == "CERTIFICATE"@ || label == "X509 CERTIFICATE"@ || label == "TRUSTED CERTIFICATE"@
}

/// The PEM labels of private keys that are not encrypted as a whole.
pub open spec fn is_plain_key_label(label: Seq<char>) -> bool {
    label == "PRIVATE KEY"@ || label == "RSA PRIVATE KEY"@ || label == "EC PRIVATE KEY"@
}

/// The PEM labels of private keys.
pub open spec fn is_key_label(label: Seq<char>) -> bool {
    is_plain_key_label(label) || label == "ENCRYPTED PRIVATE KEY"@
}

/// The PEM labels of public keys.
pub open spec fn is_public_key_label(label: Seq<char>) -> bool {
    label == "PUBLIC KEY"@ || label == "RSA PUBLIC KEY"@ || label == "EC PUBLIC KEY"@
}

/// The PEM labels of signing requests.
pub open spec fn is_request_label(label: Seq<char>) -> bool {
    label == "CERTIFICATE REQUEST"@ || label == "NEW CERTIFICATE REQUEST"@
}

/// The report on a private key that stands under `label`.
pub open spec fn private_key_text(k: PrivateKey, label: Seq<char>, encrypted: bool) -> Seq<char> {
    let format = if label == "DER"@ {
        "DER"@
    } else {
        label_text(label)
    };
    let t = field_text(
        "Format"@,
        if encrypted {
            format + " [ENCRYPTED]"@
        } else {
            format
        },
    ) + field_text("Algorithm"@, key_summary_text(k.info));
    let t = match k.rsa {
        Some(r) => t + rsa_text(r),
        None => t,
    };
    if encrypted {
        t + "           (content hidden - key is passphrase protected)\n"@
    } else {
        (match k.sha256 {
            Some(d) => t + field_text("SHA-256*"@, hex_spaced_text(d@)),
            None => t,
        }) + "           (* over PKCS#8 DER encoding)\n"@
    }
}

/// The report on a public key.
pub open spec fn public_key_text(k: PublicKey) -> Seq<char> {
    let t = field_text("Algorithm"@, key_summary_text(k.info));
    match k.der {
        Some(d) => match crypto::sha256_of(d@) {
            Some(h) => t + field_text("SHA-256"@, hex_spaced_text(h)),
            None => t,
        },
        None => t,
    }
}

/// The report on a signing request.
pub open spec fn request_text(r: SigningRequest) -> Seq<char> {
    field_text("Subject"@, name_text(r.subject@)) + field_text(
        "Version"@,
        text::signed_decimal(r.version as int),
    ) + field_text("Pub key"@, key_result_text(r.key))
}

/// One line of a report.
pub fn field(name: &str, value: &str) -> (r: String)
    ensures
        r@ == field_text(name@, value@),
{
    let mut out: String = text::pad_right(name, 11);
    out.append(": ");
    out.append(value);
    out.append("\n");
    out
}

/// A distinguished name.
pub fn name_string(entries: &Vec<NameEntry>) -> (r: String)
    ensures
        r@ == name_text(entries@),
{
    if entries.len() == 0 {
        return "<empty>".to_string();
    }
    let mut parts: Vec<String> = Vec::new();
    let mut i: usize = 0;
    while i < entries.len()
        invariant
            i <= entries@.len(),
            text::texts(parts@) == Seq::new(i as nat, |j: int| entry_text(entries@[j])),
        decreases entries.len() - i,
    {
        let mut part: String = match &entries[i].short {
            Some(s) => s.clone(),
            None => "OID".to_string(),
        };
        part.append("=");
        part.append(&text::decode_lossy(&entries[i].value));
        text::push_text(&mut parts, part);
        i += 1;
        assert(text::texts(parts@) =~= Seq::new(i as nat, |j: int| entry_text(entries@[j])));
    }
    text::join(&parts, ", ")
}

/// A distinguished name, cut to at most 32 characters.
pub fn short_name_of(entries: &Vec<NameEntry>) -> (r: String)
    ensures
        r@ == short_name(entries@),
{
    let name: String = name_string(entries);
    let cs: Vec<char> = text::chars_of(&name);
    if cs.len() > 32 {
        let mut out: String = text::slice_of(&cs, 0, 29);
        assert(cs@.subrange(0, 29) =~= cs@.take(29));
        out.append("...");
        out
    } else {
        name
    }
}

/// The name of a type of keys.
pub fn algo_id_name(id: i32) -> (r: &'static str)
    ensures
        r@ == algorithm_text(id),
{
    if id == ID_RSA {
        "RSA"
    } else if id == ID_RSA_PSS {
        "RSA-PSS"
    } else if id == ID_DSA {
        "DSA"
    } else if id == ID_DH {
        "DH"
    } else if id == ID_EC {
        "EC"
    } else if id == ID_ED25519 {
        "Ed25519"
    } else if id == ID_ED448 {
        "Ed448"
    } else if id == ID_X25519 {
        "X25519"
    } else if id == ID_X448 {
        "X448"
    } else {
        "unknown"
    }
}

/// Type and size of a key.
pub fn key_summary(k: KeyInfo) -> (r: String)
    ensures
        r@ == key_summary_text(k),
{
    let mut out: String = algo_id_name(k.id).to_string();
    out.append(", ");
    out.append(&text::dec_u64(k.bits as u64));
    out.append(" bit");
    out
}

/// Type and size of a key, or why it could not be read.
pub fn key_result(k: &Result<KeyInfo, String>) -> (r: String)
    ensures
        r@ == key_result_text(*k),
{
    match k {
        Ok(i) => key_summary(*i),
        Err(e) => {
            let mut out: String = "<error: ".to_string();
            out.append(e);
            out.append(">");
            out
        },
    }
}

/// Bytes as pairs of hexadecimal digits with colons between them.
pub fn hex_spaced(bytes: &Vec<u8>) -> (r: String)
    ensures
        r@ == hex_spaced_text(bytes@),
{
    let mut parts: Vec<String> = Vec::new();
    let mut i: usize = 0;
    while i < bytes.len()
        invariant
            i <= bytes@.len(),
            text::texts(parts@) == Seq::new(i as nat, |j: int| text::hex_pair(bytes@[j])),
        decreases bytes.len() - i,
    {
        let mut part: String = String::new();
        text::push_hex(&mut part, bytes[i]);
        assert(Seq::<char>::empty() + text::hex_pair(bytes@[i as int]) =~= text::hex_pair(
            bytes@[i as int],
        ));
        text::push_text(&mut parts, part);
        i += 1;
        assert(text::texts(parts@) =~= Seq::new(i as nat, |j: int| text::hex_pair(bytes@[j])));
    }
    text::join(&parts, ":")
}

/// An IP address.
pub fn render_ip(ip: &Vec<u8>) -> (r: String)
    ensures
        r@ == ip_text(ip@),
{
    let mut parts: Vec<String> = Vec::new();
    let mut i: usize = 0;
    if ip.len() == 4 {
        while i < 4
            invariant
                i <= 4,
                ip@.len() == 4,
                text::texts(parts@) == Seq::new(i as nat, |j: int| text::decimal(ip@[j] as nat)),
            decreases 4 - i,
        {
            text::push_text(&mut parts, text::dec_u64(ip[i] as u64));
            i += 1;
            assert(text::texts(parts@) =~= Seq::new(
                i as nat,
                |j: int| text::decimal(ip@[j] as nat),
            ));
        }
        text::join(&parts, ".")
    } else if ip.len() == 16 {
        while i < 8
            invariant
                i <= 8,
                ip@.len() == 16,
                text::texts(parts@) == Seq::new(
                    i as nat,
                    |j: int| text::hex_pair(ip@[2 * j]) + text::hex_pair(ip@[2 * j + 1]),
                ),
            decreases 8 - i,
        {
            let mut part: String = String::new();
            text::push_hex(&mut part, ip[2 * i]);
            text::push_hex(&mut part, ip[2 * i + 1]);
            assert(part@ =~= text::hex_pair(ip@[2 * i]) + text::hex_pair(ip@[2 * i + 1]));
            text::push_text(&mut parts, part);
            i += 1;
            assert(text::texts(parts@) =~= Seq::new(
                i as nat,
                |j: int| text::hex_pair(ip@[2 * j]) + text::hex_pair(ip@[2 * j + 1]),
            ));
        }
        text::join(&parts, ":")
    } else {
        text::hex(ip)
    }
}

fn alt_name_string(a: &AltName) -> (r: Option<String>)
    ensures
        crypto::text_option(r) == alt_name_text(*a),
{
    if let Some(dns) = &a.dns {
        let mut out: String = "DNS:".to_string();
        out.append(dns);
        return Some(out);
    }
    if let Some(ip) = &a.ip {
        let mut out: String = "IP:".to_string();
        out.append(&render_ip(ip));
        return Some(out);
    }
    if let Some(email) = &a.email {
        let mut out: String = "email:".to_string();
        out.append(email);
        return Some(out);
    }
    None
}

fn alt_name_list(v: &Vec<AltName>) -> (r: Vec<String>)
    ensures
        text::texts(r@) == alt_name_texts(v@),
{
    let mut out: Vec<String> = Vec::new();
    let mut i: usize = 0;
    assert(text::texts(out@) =~= alt_name_texts(v@.take(0)));
    while i < v.len()
        invariant
            i <= v@.len(),
            text::texts(out@) == alt_name_texts(v@.take(i as int)),
        decreases v.len() - i,
    {
        assert(v@.take(i + 1).drop_last() =~= v@.take(i as int));
        match alt_name_string(&v[i]) {
            Some(t) => text::push_text(&mut out, t),
            None => {},
        }
        i += 1;
    }
    assert(v@.take(i as int) =~= v@);
    out
}

fn extension_list(c: &Certificate) -> (r: Vec<String>)
    ensures
        text::texts(r@) == extension_texts(*c),
{
    let mut out: Vec<String> = Vec::new();
    assert(text::texts(out@) =~= Seq::empty());
    if let Some(n) = c.path_length {
        let mut note: String = "basicConstraints: CA, pathlen=".to_string();
        note.append(&text::dec_u64(n as u64));
        text::push_text(&mut out, note);
    }
    if let Some(k) = &c.subject_key_id {
        let mut note: String = "SKI: ".to_string();
        note.append(&hex_spaced(k));
        text::push_text(&mut out, note);
    }
    if let Some(k) = &c.authority_key_id {
        let mut note: String = "AKI: ".to_string();
        note.append(&hex_spaced(k));
        text::push_text(&mut out, note);
    }
    out
}

/// The lines on an RSA key.
pub fn rsa_details(r: &RsaInfo) -> (s: String)
    ensures
        s@ == rsa_text(*r),
{
    let mut size: String = text::dec_i64(r.modulus_bits as i64);
    size.append(" bit");
    let mut out: String = field("RSA modulus", &size);
    let exponent: String = match &r.exponent {
        Some(e) => e.clone(),
        None => "<?>".to_string(),
    };
    out.append(&field("RSA pub exp", &exponent));
    out
}

fn text_or(o: &Option<String>, other: &str) -> (r: String)
    ensures
        r@ == (match *o {
            Some(s) => s@,
            None => other@,
        }),
{
    match o {
        Some(s) => s.clone(),
        None => other.to_string(),
    }
}

/// Whether a report tells how far away the end of a certificate's validity is, as far as that and the
/// moment of the report are in the years 0 to 9999: in whole days, and with a minus sign if it is over
/// by a day or more.
pub open spec fn counts_down(c: Certificate, now: Moment, t: Seq<char>) -> bool {
    match clock::moment_of(c.not_after@) {
        Some(end) => clock::common(end) && clock::common((now.secs, now.nanos)) ==> {
            let span = (end.0 - now.secs) * 1_000_000_000 + (end.1 - now.nanos);
            &&& span > -86_400_000_000_000 ==> text::on_line(
                t,
                "Not after  : "@ + c.not_after@ + "  ("@ + text::decimal(
                    (if span < 0 {
                        0int
                    } else {
                        span / 86_400_000_000_000
                    }) as nat,
                ) + " day(s) remaining)"@,
            )
            &&& span <= -86_400_000_000_000 ==> text::on_line(
                t,
                "Not after  : "@ + c.not_after@ + "  (-"@ + text::decimal(
                    ((-span) / 86_400_000_000_000) as nat,
                ) + " day(s) remaining)"@,
            )
        },
        None => true,
    }
}

proof fn lemma_counts_down(c: Certificate, now: Moment)
    requires
        clock::counts(c.not_after@, now, clock::days_left(c.not_after@, now)),
    ensures
        counts_down(c, now, certificate_text(c, now)),
{
    if let Some(end) = clock::moment_of(c.not_after@) {
        if clock::common(end) && clock::common((now.secs, now.nanos)) {
            let days = clock::days_left(c.not_after@, now)->0;
            days_left_are_told(c, now, days);
            let span = (end.0 - now.secs) * 1_000_000_000 + (end.1 - now.nanos);
            if span >= 0 {
                assert(span / 86_400_000_000_000 == days);
            } else {
                assert((-span) / 86_400_000_000_000 == -days);
            }
        }
    }
}

/// The report on a certificate at the moment `now`.
pub fn cert_report(c: &Certificate, now: Moment) -> (r: String)
    ensures
        r@ == certificate_text(*c, now),
        counts_down(*c, now, r@),
{
    let mut out: String = field("Subject", &name_string(&c.subject));
    out.append(&field("Issuer", &name_string(&c.issuer)));
    out.append(&field("Serial", &text_or(&c.serial, "<?>")));
    out.append(&field("Not before", &c.not_before));
    let mut end: String = c.not_after.clone();
    let left: Option<i64> = clock::days_until(&c.not_after, now);
    proof {
        lemma_counts_down(*c, now);
    }
    if let Some(days) = left {
        end.append("  (");
        end.append(&text::dec_i64(days));
        end.append(" day(s) remaining)");
    }
    out.append(&field("Not after", &end));
    out.append(&field("Sig algo", &text_or(&c.signature, "unknown")));
    out.append(&field("Pub key", &key_result(&c.key)));
    if let Some(v) = &c.alt_names {
        let names: Vec<String> = alt_name_list(v);
        if names.len() > 0 {
            out.append(&field("SANs", &text::join(&names, ", ")));
        }
        assert(alt_name_texts(v@).len() == names@.len());
    }
    let notes: Vec<String> = extension_list(c);
    if notes.len() > 0 {
        out.append(&field("Extensions", &text::join(&notes, "; ")));
    }
    assert(extension_texts(*c).len() == notes@.len());
    if let Some(d) = &c.sha256 {
        out.append(&field("SHA-256", &hex_spaced(d)));
    }
    if let Some(rsa) = &c.rsa {
        out.append(&rsa_details(rsa));
    }
    out
}

/// Whether `label` is one of certificates.
pub fn certificate_label(label: &str) -> (r: bool)
    ensures
        r == is_certificate_label(label@),
{
    text::str_eq(label, "CERTIFICATE") || text::str_eq(label, "X509 CERTIFICATE") || text::str_eq(
        label,
        "TRUSTED CERTIFICATE",
    )
}

/// Whether `label` is one of private keys that are not encrypted as a whole.
pub fn plain_key_label(label: &str) -> (r: bool)
    ensures
        r == is_plain_key_label(label@),
{
    text::str_eq(label, "PRIVATE KEY") || text::str_eq(label, "RSA PRIVATE KEY") || text::str_eq(
        label,
        "EC PRIVATE KEY",
    )
}

/// Whether `label` is one of public keys.
pub fn public_key_label(label: &str) -> (r: bool)
    ensures
        r == is_public_key_label(label@),
{
    text::str_eq(label, "PUBLIC KEY") || text::str_eq(label, "RSA PUBLIC KEY") || text::str_eq(
        label,
        "EC PUBLIC KEY",
    )
}

/// Whether `label` is one of signing requests.
pub fn request_label(label: &str) -> (r: bool)
    ensures
        r == is_request_label(label@),
{
    text::str_eq(label, "CERTIFICATE REQUEST") || text::str_eq(label, "NEW CERTIFICATE REQUEST")
}

/// What a PEM label stands for.
pub fn describe_label(label: &str) -> (r: &'static str)
    ensures
        r@ == label_text(label@),
{
    if certificate_label(label) {
        "X.509 certificate"
    } else if text::str_eq(label, "PRIVATE KEY") {
        "private key (PKCS#8)"
    } else if text::str_eq(label, "ENCRYPTED PRIVATE KEY") {
        "encrypted private key (PKCS#8)"
    } else if text::str_eq(label, "RSA PRIVATE KEY") {
        "private key (PKCS#1 RSA)"
    } else if text::str_eq(label, "EC PRIVATE KEY") {
        "private key (SEC1 EC)"
    } else if text::str_eq(label, "PUBLIC KEY") {
        "public key (SPKI)"
    } else if text::str_eq(label, "RSA PUBLIC KEY") {
        "public key (PKCS#1 RSA)"
    } else if text::str_eq(label, "EC PUBLIC KEY") {
        "public key (EC point)"
    } else if request_label(label) {
        "CSR (PKCS#10)"
    } else {
        "unrecognized"
    }
}

/// The report on a private key that stands under `label`.
pub fn key_report(k: &PrivateKey, label: &str, encrypted: bool) -> (r: String)
    ensures
        r@ == private_key_text(*k, label@, encrypted),
{
    let mut format: String = if text::str_eq(label, "DER") {
        "DER".to_string()
    } else {
        describe_label(label).to_string()
    };
    if encrypted {
        format.append(" [ENCRYPTED]");
    }
    let mut out: String = field("Format", &format);
    out.append(&field("Algorithm", &key_summary(k.info)));
    if let Some(rsa) = &k.rsa {
        out.append(&rsa_details(rsa));
    }
    if encrypted {
        out.append("           (content hidden - key is passphrase protected)\n");
        return out;
    }
    if let Some(d) = &k.sha256 {
        out.append(&field("SHA-256*", &hex_spaced(d)));
    }
    out.append("           (* over PKCS#8 DER encoding)\n");
    out
}

/// The report on a public key.
pub fn pubkey_report(k: &PublicKey) -> (r: String)
    ensures
        r@ == public_key_text(*k),
{
    let mut out: String = field("Algorithm", &key_summary(k.info));
    if let Some(der) = &k.der {
        if let Some(d) = crypto::sha256(der) {
            out.append(&field("SHA-256", &hex_spaced(&d)));
        }
    }
    out
}

/// The report on a signing request.
pub fn csr_report(q: &SigningRequest) -> (r: String)
    ensures
        r@ == request_text(*q),
{
    let mut out: String = field("Subject", &name_string(&q.subject));
    out.append(&field("Version", &text::dec_i64(q.version as i64)));
    out.append(&field("Pub key", &key_result(&q.key)));
    out
}

/// A field between other text is a line: its label and its value.
pub proof fn lemma_line_of(
    before: Seq<char>,
    name: Seq<char>,
    label: Seq<char>,
    value: Seq<char>,
    after: Seq<char>,
)
    requires
        before.len() == 0 || before.last() == '\n',
        text::padded_right(name, 11) + ": "@ == label,
    ensures
        text::on_line(before + (field_text(name, value) + after), label + value),
{
    reveal_strlit("\n");
    let line = label + value;
    assert(field_text(name, value) =~= line + seq!['\n']);
    text::lemma_on_line(before, line, after);
    assert(before + (line + seq!['\n']) + after =~= before + (field_text(name, value) + after));
}

proof fn lemma_field_closed(name: Seq<char>, value: Seq<char>)
    ensures
        field_text(name, value).len() > 0,
        field_text(name, value).last() == '\n',
{
    reveal_strlit("\n");
}

proof fn lemma_labels_first()
    ensures
        text::padded_right("Subject"@, 11) + ": "@ == "Subject    : "@,
        text::padded_right("Issuer"@, 11) + ": "@ == "Issuer     : "@,
        text::padded_right("Serial"@, 11) + ": "@ == "Serial     : "@,
{
    reveal_strlit(": ");
    reveal_strlit("Subject");
    reveal_strlit("Issuer");
    reveal_strlit("Serial");
    reveal_strlit("Subject    : ");
    reveal_strlit("Issuer     : ");
    reveal_strlit("Serial     : ");
    assert(text::padded_right("Subject"@, 11) + ": "@ =~= "Subject    : "@);
    assert(text::padded_right("Issuer"@, 11) + ": "@ =~= "Issuer     : "@);
    assert(text::padded_right("Serial"@, 11) + ": "@ =~= "Serial     : "@);
}

proof fn lemma_labels_second()
    ensures
        text::padded_right("Not before"@, 11) + ": "@ == "Not before : "@,
        text::padded_right("Not after"@, 11) + ": "@ == "Not after  : "@,
        text::padded_right("Sig algo"@, 11) + ": "@ == "Sig algo   : "@,
        text::padded_right("Pub key"@, 11) + ": "@ == "Pub key    : "@,
{
    reveal_strlit(": ");
    reveal_strlit("Not before");
    reveal_strlit("Not after");
    reveal_strlit("Sig algo");
    reveal_strlit("Pub key");
    reveal_strlit("Not before : ");
    reveal_strlit("Not after  : ");
    reveal_strlit("Sig algo   : ");
    reveal_strlit("Pub key    : ");
    assert(text::padded_right("Not before"@, 11) + ": "@ =~= "Not before : "@);
    assert(text::padded_right("Not after"@, 11) + ": "@ =~= "Not after  : "@);
    assert(text::padded_right("Sig algo"@, 11) + ": "@ =~= "Sig algo   : "@);
    assert(text::padded_right("Pub key"@, 11) + ": "@ =~= "Pub key    : "@);
}

proof fn lemma_labels_third()
    ensures
        text::padded_right("SANs"@, 11) + ": "@ == "SANs       : "@,
        text::padded_right("Extensions"@, 11) + ": "@ == "Extensions : "@,
        text::padded_right("SHA-256"@, 11) + ": "@ == "SHA-256    : "@,
        text::padded_right("SHA-256*"@, 11) + ": "@ == "SHA-256*   : "@,
{
    reveal_strlit(": ");
    reveal_strlit("SANs");
    reveal_strlit("Extensions");
    reveal_strlit("SHA-256");
    reveal_strlit("SHA-256*");
    reveal_strlit("SANs       : ");
    reveal_strlit("Extensions : ");
    reveal_strlit("SHA-256    : ");
    reveal_strlit("SHA-256*   : ");
    assert(text::padded_right("SANs"@, 11) + ": "@ =~= "SANs       : "@);
    assert(text::padded_right("Extensions"@, 11) + ": "@ =~= "Extensions : "@);
    assert(text::padded_right("SHA-256"@, 11) + ": "@ =~= "SHA-256    : "@);
    assert(text::padded_right("SHA-256*"@, 11) + ": "@ =~= "SHA-256*   : "@);
}

proof fn lemma_labels_fourth()
    ensures
        text::padded_right("RSA modulus"@, 11) + ": "@ == "RSA modulus: "@,
        text::padded_right("RSA pub exp"@, 11) + ": "@ == "RSA pub exp: "@,
        text::padded_right("Format"@, 11) + ": "@ == "Format     : "@,
        text::padded_right("Algorithm"@, 11) + ": "@ == "Algorithm  : "@,
        text::padded_right("Version"@, 11) + ": "@ == "Version    : "@,
{
    reveal_strlit(": ");
    reveal_strlit("RSA modulus");
    reveal_strlit("RSA pub exp");
    reveal_strlit("Format");
    reveal_strlit("Algorithm");
    reveal_strlit("Version");
    reveal_strlit("RSA modulus: ");
    reveal_strlit("RSA pub exp: ");
    reveal_strlit("Format     : ");
    reveal_strlit("Algorithm  : ");
    reveal_strlit("Version    : ");
    assert(text::padded_right("RSA modulus"@, 11) + ": "@ =~= "RSA modulus: "@);
    assert(text::padded_right("RSA pub exp"@, 11) + ": "@ =~= "RSA pub exp: "@);
    assert(text::padded_right("Format"@, 11) + ": "@ =~= "Format     : "@);
    assert(text::padded_right("Algorithm"@, 11) + ": "@ =~= "Algorithm  : "@);
    assert(text::padded_right("Version"@, 11) + ": "@ =~= "Version    : "@);
}

/// The fields that every report on a certificate has.
spec fn common_fields(c: Certificate, now: Moment) -> Seq<char> {
    field_text("Subject"@, name_text(c.subject@)) + field_text("Issuer"@, name_text(c.issuer@))
        + field_text(
        "Serial"@,
        match c.serial {
            Some(s) => s@,
            None => "<?>"@,
        },
    ) + field_text("Not before"@, c.not_before@) + field_text("Not after"@, not_after_text(c, now))
        + field_text(
        "Sig algo"@,
        match c.signature {
            Some(s) => s@,
            None => "unknown"@,
        },
    ) + field_text("Pub key"@, key_result_text(c.key))
}

/// The fields that a report on a certificate has where there is something to tell.
spec fn further_fields(c: Certificate) -> Seq<char> {
    let none = Seq::<char>::empty();
    let sans = match c.alt_names {
        Some(v) => if alt_name_texts(v@).len() > 0 {
            field_text("SANs"@, text::joined(alt_name_texts(v@), ", "@))
        } else {
            none
        },
        None => none,
    };
    let notes = if extension_texts(c).len() > 0 {
        field_text("Extensions"@, text::joined(extension_texts(c), "; "@))
    } else {
        none
    };
    let digest = match c.sha256 {
        Some(d) => field_text("SHA-256"@, hex_spaced_text(d@)),
        None => none,
    };
    let rsa = match c.rsa {
        Some(r) => rsa_text(r),
        None => none,
    };
    sans + (notes + (digest + rsa))
}

proof fn lemma_report_split(c: Certificate, now: Moment)
    ensures
        certificate_text(c, now) == common_fields(c, now) + further_fields(c),
{
    assert(certificate_text(c, now) =~= common_fields(c, now) + further_fields(c));
}

#[verifier::spinoff_prover]
proof fn lemma_regroup(
    a: Seq<char>,
    b: Seq<char>,
    c: Seq<char>,
    d: Seq<char>,
    e: Seq<char>,
    f: Seq<char>,
    g: Seq<char>,
    rest: Seq<char>,
)
    ensures
        a + b + c + d + e + f + g + rest == Seq::<char>::empty() + (a + (b + c + d + e + f + g + rest)),
        a + b + c + d + e + f + g + rest == a + (b + (c + d + e + f + g + rest)),
        a + b + c + d + e + f + g + rest == (a + b) + (c + (d + e + f + g + rest)),
        a + b + c + d + e + f + g + rest == (a + b + c) + (d + (e + f + g + rest)),
        a + b + c + d + e + f + g + rest == (a + b + c + d) + (e + (f + g + rest)),
        a + b + c + d + e + f + g + rest == (a + b + c + d + e) + (f + (g + rest)),
        a + b + c + d + e + f + g + rest == (a + b + c + d + e + f) + (g + rest),
{
    let all = a + b + c + d + e + f + g + rest;
    assert(all =~= Seq::<char>::empty() + (a + (b + c + d + e + f + g + rest)));
    assert(all =~= a + (b + (c + d + e + f + g + rest)));
    assert(all =~= (a + b) + (c + (d + e + f + g + rest)));
    assert(all =~= (a + b + c) + (d + (e + f + g + rest)));
    assert(all =~= (a + b + c + d) + (e + (f + g + rest)));
    assert(all =~= (a + b + c + d + e) + (f + (g + rest)));
    assert(all =~= (a + b + c + d + e + f) + (g + rest));
}

/// Every report on a certificate tells, each on a line of its own, whom it is for and who issued it, its
/// number, from when and until when it is valid, how it is signed, and its key.
pub proof fn certificate_report_has_lines(c: Certificate, now: Moment)
    ensures
        ({
            let t = certificate_text(c, now);
            &&& text::on_line(t, "Subject    : "@ + name_text(c.subject@))
            &&& text::on_line(t, "Issuer     : "@ + name_text(c.issuer@))
            &&& c.serial matches Some(s) ==> text::on_line(t, "Serial     : "@ + s@)
            &&& c.serial is None ==> text::on_line(t, "Serial     : "@ + "<?>"@)
            &&& text::on_line(t, "Not before : "@ + c.not_before@)
            &&& text::on_line(t, "Not after  : "@ + not_after_text(c, now))
            &&& c.signature matches Some(s) ==> text::on_line(t, "Sig algo   : "@ + s@)
            &&& c.signature is None ==> text::on_line(t, "Sig algo   : "@ + "unknown"@)
            &&& text::on_line(t, "Pub key    : "@ + key_result_text(c.key))
        }),
{
    let a = field_text("Subject"@, name_text(c.subject@));
    let b = field_text("Issuer"@, name_text(c.issuer@));
    let serial = match c.serial {
        Some(s) => s@,
        None => "<?>"@,
    };
    let d = field_text("Serial"@, serial);
    let e = field_text("Not before"@, c.not_before@);
    let f = field_text("Not after"@, not_after_text(c, now));
    let signature = match c.signature {
        Some(s) => s@,
        None => "unknown"@,
    };
    let g = field_text("Sig algo"@, signature);
    let h = field_text("Pub key"@, key_result_text(c.key));
    let rest = further_fields(c);
    lemma_report_split(c, now);
    lemma_regroup(a, b, d, e, f, g, h, rest);
    lemma_labels_first();
    lemma_labels_second();
    lemma_field_closed("Subject"@, name_text(c.subject@));
    lemma_field_closed("Issuer"@, name_text(c.issuer@));
    lemma_field_closed("Serial"@, serial);
    lemma_field_closed("Not before"@, c.not_before@);
    lemma_field_closed("Not after"@, not_after_text(c, now));
    lemma_field_closed("Sig algo"@, signature);
    lemma_closed_after(a, b);
    lemma_closed_after(a + b, d);
    lemma_closed_after(a + b + d, e);
    lemma_closed_after(a + b + d + e, f);
    lemma_closed_after(a + b + d + e + f, g);
    let none = Seq::<char>::empty();
    lemma_line_of(none, "Subject"@, "Subject    : "@, name_text(c.subject@), b + d + e + f + g + h + rest);
    lemma_line_of(a, "Issuer"@, "Issuer     : "@, name_text(c.issuer@), d + e + f + g + h + rest);
    lemma_line_of(a + b, "Serial"@, "Serial     : "@, serial, e + f + g + h + rest);
    lemma_line_of(a + b + d, "Not before"@, "Not before : "@, c.not_before@, f + g + h + rest);
    lemma_line_of(a + b + d + e, "Not after"@, "Not after  : "@, not_after_text(c, now), g + h + rest);
    lemma_line_of(a + b + d + e + f, "Sig algo"@, "Sig algo   : "@, signature, h + rest);
    lemma_line_of(
        a + b + d + e + f + g,
        "Pub key"@,
        "Pub key    : "@,
        key_result_text(c.key),
        rest,
    );
}

proof fn lemma_closed_after(a: Seq<char>, b: Seq<char>)
    requires
        b.len() > 0,
        b.last() == '\n',
    ensures
        (a + b).len() > 0,
        (a + b).last() == '\n',
{
}

/// Where the end of a certificate's validity can be counted in days from the moment of a report, the
/// report says how many are left, in decimal after the time itself, with a minus sign where they are
/// over. Two reports that say the same number mean the same number.
pub proof fn days_left_are_told(c: Certificate, now: Moment, days: i64)
    requires
        clock::moment_of(c.not_after@) matches Some(t) && clock::days_apart(t, (now.secs, now.nanos))
            == Some(days),
    ensures
        days < 0 ==> text::on_line(
            certificate_text(c, now),
            "Not after  : "@ + c.not_after@ + "  (-"@ + text::decimal((-days) as nat)
                + " day(s) remaining)"@,
        ),
        days >= 0 ==> text::on_line(
            certificate_text(c, now),
            "Not after  : "@ + c.not_after@ + "  ("@ + text::decimal(days as nat)
                + " day(s) remaining)"@,
        ),
        days < 0 ==> text::ends(
            not_after_text(c, now),
            "  (-"@ + text::decimal((-days) as nat) + " day(s) remaining)"@,
        ),
        days >= 0 ==> text::ends(
            not_after_text(c, now),
            "  ("@ + text::decimal(days as nat) + " day(s) remaining)"@,
        ),
{
    certificate_report_has_lines(c, now);
    text::sign_is_told(days as int, 0);
    let close = " day(s) remaining)"@;
    if days < 0 {
        let d = text::decimal((-days) as nat);
        let written = text::signed_decimal(days as int);
        assert(written =~= seq!['-'] + written.skip(1));
        lemma_minus_shown(c.not_after@, d, close);
        lemma_days_shown(c.not_after@, "  (-"@, d, close);
    } else {
        lemma_days_shown(c.not_after@, "  ("@, text::decimal(days as nat), close);
    }
}

proof fn lemma_minus_shown(time: Seq<char>, d: Seq<char>, close: Seq<char>)
    ensures
        time + "  ("@ + (seq!['-'] + d) + close == time + "  (-"@ + d + close,
{
    reveal_strlit("  (");
    reveal_strlit("  (-");
    assert("  ("@ + seq!['-'] =~= "  (-"@);
    assert(time + "  ("@ + (seq!['-'] + d) + close =~= time + ("  ("@ + seq!['-']) + d + close);
}

proof fn lemma_days_shown(time: Seq<char>, open: Seq<char>, d: Seq<char>, close: Seq<char>)
    ensures
        text::ends(time + open + d + close, open + d + close),
        "Not after  : "@ + (time + open + d + close) == "Not after  : "@ + time + open + d + close,
{
    let n = time + open + d + close;
    let tail = open + d + close;
    assert(n.subrange(n.len() - tail.len(), n.len() as int) =~= tail);
    assert("Not after  : "@ + n =~= "Not after  : "@ + time + open + d + close);
}

/// The days that two certificates have left are shown alike only where they are as many.
pub proof fn days_left_are_told_apart(a: Certificate, b: Certificate, now: Moment, days: i64, other: i64)
    requires
        clock::moment_of(a.not_after@) matches Some(t) && clock::days_apart(t, (now.secs, now.nanos))
            == Some(days),
        clock::moment_of(b.not_after@) matches Some(t) && clock::days_apart(t, (now.secs, now.nanos))
            == Some(other),
        not_after_text(a, now).skip(a.not_after@.len() as int) == not_after_text(b, now).skip(
            b.not_after@.len() as int,
        ),
    ensures
        days == other,
{
    text::sign_is_told(days as int, other as int);
    let x = text::signed_decimal(days as int);
    let y = text::signed_decimal(other as int);
    let s = "  ("@;
    let e = " day(s) remaining)"@;
    let p = not_after_text(a, now).skip(a.not_after@.len() as int);
    let q = not_after_text(b, now).skip(b.not_after@.len() as int);
    assert(p =~= s + x + e);
    assert(q =~= s + y + e);
    assert(x.len() == y.len());
    assert(x =~= p.subrange(s.len() as int, (s.len() + x.len()) as int));
    assert(y =~= q.subrange(s.len() as int, (s.len() + y.len()) as int));
}

#[verifier::spinoff_prover]
proof fn lemma_further_lines(c: Certificate)
    ensures
        ({
            let t = further_fields(c);
            &&& c.alt_names matches Some(v) ==> alt_name_texts(v@).len() > 0 ==> text::on_line(
                t,
                "SANs       : "@ + text::joined(alt_name_texts(v@), ", "@),
            )
            &&& extension_texts(c).len() > 0 ==> text::on_line(
                t,
                "Extensions : "@ + text::joined(extension_texts(c), "; "@),
            )
            &&& c.sha256 matches Some(d) ==> text::on_line(t, "SHA-256    : "@ + hex_spaced_text(d@))
        }),
{
    let none = Seq::<char>::empty();
    let sans = match c.alt_names {
        Some(v) => if alt_name_texts(v@).len() > 0 {
            field_text("SANs"@, text::joined(alt_name_texts(v@), ", "@))
        } else {
            none
        },
        None => none,
    };
    let notes = if extension_texts(c).len() > 0 {
        field_text("Extensions"@, text::joined(extension_texts(c), "; "@))
    } else {
        none
    };
    let digest = match c.sha256 {
        Some(d) => field_text("SHA-256"@, hex_spaced_text(d@)),
        None => none,
    };
    let rsa = match c.rsa {
        Some(r) => rsa_text(r),
        None => none,
    };
    let t = further_fields(c);
    lemma_labels_third();
    if let Some(v) = c.alt_names {
        if alt_name_texts(v@).len() > 0 {
            let value = text::joined(alt_name_texts(v@), ", "@);
            lemma_line_of(none, "SANs"@, "SANs       : "@, value, notes + (digest + rsa));
            assert(none + (sans + (notes + (digest + rsa))) =~= t);
            lemma_field_closed("SANs"@, value);
        }
    }
    assert(sans.len() == 0 || sans.last() == '\n');
    if extension_texts(c).len() > 0 {
        let value = text::joined(extension_texts(c), "; "@);
        lemma_line_of(sans, "Extensions"@, "Extensions : "@, value, digest + rsa);
        lemma_field_closed("Extensions"@, value);
    }
    let before = sans + notes;
    assert(before.len() == 0 || before.last() == '\n') by {
        if extension_texts(c).len() == 0 {
            assert(before =~= sans);
        }
    }
    if let Some(d) = c.sha256 {
        lemma_line_of(before, "SHA-256"@, "SHA-256    : "@, hex_spaced_text(d@), rsa);
        assert(before + (digest + rsa) =~= t);
    }
}

/// Where a certificate has alternative names, noted extensions or a digest, its report tells them on
/// lines of their own.
pub proof fn certificate_report_has_further_lines(c: Certificate, now: Moment)
    ensures
        ({
            let t = certificate_text(c, now);
            &&& c.alt_names matches Some(v) ==> alt_name_texts(v@).len() > 0 ==> text::on_line(
                t,
                "SANs       : "@ + text::joined(alt_name_texts(v@), ", "@),
            )
            &&& extension_texts(c).len() > 0 ==> text::on_line(
                t,
                "Extensions : "@ + text::joined(extension_texts(c), "; "@),
            )
            &&& c.sha256 matches Some(d) ==> text::on_line(t, "SHA-256    : "@ + hex_spaced_text(d@))
        }),
{
    lemma_further_lines(c);
    lemma_report_split(c, now);
    lemma_field_closed("Pub key"@, key_result_text(c.key));
    let before = common_fields(c, now);
    assert(before.last() == '\n');
    let t = further_fields(c);
    if let Some(v) = c.alt_names {
        if alt_name_texts(v@).len() > 0 {
            lemma_line_preceded(before, t, "SANs       : "@ + text::joined(alt_name_texts(v@), ", "@));
        }
    }
    if extension_texts(c).len() > 0 {
        lemma_line_preceded(before, t, "Extensions : "@ + text::joined(extension_texts(c), "; "@));
    }
    if let Some(d) = c.sha256 {
        lemma_line_preceded(before, t, "SHA-256    : "@ + hex_spaced_text(d@));
    }
}

/// A line of a text stays one when whole lines come before the text.
pub proof fn lemma_line_preceded(before: Seq<char>, t: Seq<char>, line: Seq<char>)
    requires
        before.len() == 0 || before.last() == '\n',
        text::on_line(t, line),
    ensures
        text::on_line(before + t, line),
{
    let i = choose|i: int|
        0 <= i && i + line.len() < t.len() && #[trigger] t.subrange(i, i + line.len()) == line && t[i
            + line.len()] == '\n' && (i == 0 || t[i - 1] == '\n');
    let j = before.len() + i;
    let all = before + t;
    assert(all.subrange(j, j + line.len()) =~= t.subrange(i, i + line.len()));
    assert(all[j + line.len()] == '\n');
    if j > 0 {
        if i > 0 {
            assert(all[j - 1] == t[i - 1]);
        } else {
            assert(all[j - 1] == before.last());
        }
    }
}

/// A distinguished name tells its attributes in order, each as its type and its value, with commas
/// between them.
pub proof fn names_tell_attributes(entries: Seq<NameEntry>, e: NameEntry)
    ensures
        ({
            let kind = match e.short {
                Some(s) => s@,
                None => "OID"@,
            };
            let one = kind + "="@ + text::utf8_lossy(e.value@);
            &&& entries.len() == 0 ==> name_text(entries) == "<empty>"@
            &&& entries.len() == 0 ==> name_text(entries.push(e)) == one
            &&& entries.len() > 0 ==> name_text(entries.push(e)) == name_text(entries) + ", "@ + one
        }),
{
    let more = entries.push(e);
    let parts = Seq::new(more.len(), |i: int| entry_text(more[i]));
    assert(parts.drop_last() =~= Seq::new(entries.len(), |i: int| entry_text(entries[i])));
    assert(parts.last() == entry_text(e));
}

/// A name of up to 32 characters is shown whole; of a longer one the first 29 characters are shown, and
/// dots tell that something is missing.
pub proof fn short_names_keep_start(entries: Seq<NameEntry>)
    ensures
        ({
            let name = name_text(entries);
            let s = short_name(entries);
            &&& s.len() <= 32
            &&& name.len() <= 32 ==> s == name
            &&& name.len() > 32 ==> s.len() == 32 && s.take(29) == name.take(29) && s.skip(29) == "..."@
        }),
{
    reveal_strlit("...");
    let name = name_text(entries);
    if name.len() > 32 {
        let s = short_name(entries);
        assert(s.take(29) =~= name.take(29));
        assert(s.skip(29) =~= "..."@);
    }
}

/// A digest is told byte by byte: two digits for each, and colons between them.
pub proof fn digests_are_told_in_order(bytes: Seq<u8>, i: int)
    requires
        0 <= i < bytes.len(),
    ensures
        hex_spaced_text(bytes).len() == 3 * bytes.len() - 1,
        hex_spaced_text(bytes)[3 * i] == text::hex_pair(bytes[i])[0],
        hex_spaced_text(bytes)[3 * i + 1] == text::hex_pair(bytes[i])[1],
        i + 1 < bytes.len() ==> hex_spaced_text(bytes)[3 * i + 2] == ':',
    decreases bytes.len(),
{
    reveal_strlit(":");
    let n = bytes.len() - 1;
    let rest = bytes.drop_last();
    let parts = Seq::new(bytes.len(), |k: int| text::hex_pair(bytes[k]));
    assert(parts.drop_last() =~= Seq::new(rest.len(), |k: int| text::hex_pair(rest[k])));
    assert(parts.last() == text::hex_pair(bytes[n]));
    if n > 0 {
        if i < n {
            digests_are_told_in_order(rest, i);
        } else {
            digests_are_told_in_order(rest, n - 1);
        }
    }
}

/// An address of four bytes is told as four numbers with dots between them, in order.
pub proof fn addresses_are_told_in_order(ip: Seq<u8>)
    requires
        ip.len() == 4,
    ensures
        ip_text(ip) == text::decimal(ip[0] as nat) + "."@ + text::decimal(ip[1] as nat) + "."@
            + text::decimal(ip[2] as nat) + "."@ + text::decimal(ip[3] as nat),
{
    let parts = Seq::new(4, |i: int| text::decimal(ip[i] as nat));
    reveal_with_fuel(text::joined, 5);
    let three = parts.drop_last();
    let two = three.drop_last();
    let one = two.drop_last();
    assert(three.last() == text::decimal(ip[2] as nat));
    assert(two.last() == text::decimal(ip[1] as nat));
    assert(one[0] == text::decimal(ip[0] as nat));
    assert(ip_text(ip) =~= text::decimal(ip[0] as nat) + "."@ + text::decimal(ip[1] as nat) + "."@
        + text::decimal(ip[2] as nat) + "."@ + text::decimal(ip[3] as nat));
}

/// Every alternative name of a kind that is shown is told with its kind, in the order of the names;
/// others are left out.
pub proof fn alternative_names_are_told(v: Seq<AltName>, a: AltName)
    ensures
        ({
            let before = alt_name_texts(v);
            let after = alt_name_texts(v.push(a));
            &&& a.dns matches Some(d) ==> after == before.push("DNS:"@ + d@)
            &&& a.dns is None ==> {
                &&& a.ip matches Some(ip) ==> after == before.push("IP:"@ + ip_text(ip@))
                &&& a.ip is None ==> {
                    &&& a.email matches Some(m) ==> after == before.push("email:"@ + m@)
                    &&& a.email is None ==> after == before
                }
            }
        }),
{
    assert(v.push(a).drop_last() =~= v);
}

/// The report on a private key tells its format and its algorithm on lines of their own. Of a key that
/// is encrypted it says so and keeps the rest to itself; of any other it tells the digest.
#[verifier::spinoff_prover]
pub proof fn key_report_has_lines(k: PrivateKey, label: Seq<char>, encrypted: bool)
    ensures
        ({
            let t = private_key_text(k, label, encrypted);
            let format = if label == "DER"@ {
                "DER"@
            } else {
                label_text(label)
            };
            &&& !encrypted ==> text::begins(t, "Format     : "@ + format + "\n"@)
            &&& encrypted ==> text::begins(t, "Format     : "@ + format + " [ENCRYPTED]\n"@)
            &&& text::on_line(t, "Algorithm  : "@ + key_summary_text(k.info))
            &&& encrypted ==> text::ends(
                t,
                "           (content hidden - key is passphrase protected)\n"@,
            )
            &&& !encrypted ==> text::ends(t, "           (* over PKCS#8 DER encoding)\n"@)
            &&& !encrypted && k.sha256 is Some ==> text::on_line(
                t,
                "SHA-256*   : "@ + hex_spaced_text(k.sha256->0@),
            )
        }),
{
    let format = if label == "DER"@ {
        "DER"@
    } else {
        label_text(label)
    };
    let value = key_format(label, encrypted);
    let a = field_text("Format"@, value);
    let b = field_text("Algorithm"@, key_summary_text(k.info));
    let rest = key_rest(k, encrypted);
    let close = key_close(encrypted);
    lemma_key_split(k, label, encrypted);
    lemma_labels_fourth();
    lemma_field_closed("Format"@, value);
    lemma_line_of(a, "Algorithm"@, "Algorithm  : "@, key_summary_text(k.info), rest + close);
    lemma_format_line(format, value, encrypted, b + (rest + close));
    lemma_last_part(a + (b + rest), close);
    assert(a + (b + (rest + close)) =~= (a + (b + rest)) + close);
    if !encrypted && k.sha256 is Some {
        lemma_key_digest(k);
        let line = "SHA-256*   : "@ + hex_spaced_text(k.sha256->0@);
        lemma_field_closed("Algorithm"@, key_summary_text(k.info));
        lemma_closed_after(a, b);
        text::lemma_line_followed(rest, line, close);
        lemma_line_preceded(a + b, rest + close, line);
        assert((a + b) + (rest + close) =~= a + (b + (rest + close)));
    }
}

spec fn key_format(label: Seq<char>, encrypted: bool) -> Seq<char> {
    let format = if label == "DER"@ {
        "DER"@
    } else {
        label_text(label)
    };
    if encrypted {
        format + " [ENCRYPTED]"@
    } else {
        format
    }
}

spec fn key_rest(k: PrivateKey, encrypted: bool) -> Seq<char> {
    let none = Seq::<char>::empty();
    (match k.rsa {
        Some(r) => rsa_text(r),
        None => none,
    }) + (if encrypted {
        none
    } else {
        match k.sha256 {
            Some(d) => field_text("SHA-256*"@, hex_spaced_text(d@)),
            None => none,
        }
    })
}

spec fn key_close(encrypted: bool) -> Seq<char> {
    if encrypted {
        "           (content hidden - key is passphrase protected)\n"@
    } else {
        "           (* over PKCS#8 DER encoding)\n"@
    }
}

#[verifier::spinoff_prover]
proof fn lemma_key_split(k: PrivateKey, label: Seq<char>, encrypted: bool)
    ensures
        private_key_text(k, label, encrypted) == field_text("Format"@, key_format(label, encrypted)) + (
        field_text("Algorithm"@, key_summary_text(k.info)) + (key_rest(k, encrypted) + key_close(
            encrypted,
        ))),
{
    assert(private_key_text(k, label, encrypted) =~= field_text("Format"@, key_format(label, encrypted))
        + (field_text("Algorithm"@, key_summary_text(k.info)) + (key_rest(k, encrypted) + key_close(
        encrypted,
    ))));
}

proof fn lemma_last_part(a: Seq<char>, b: Seq<char>)
    ensures
        text::ends(a + b, b),
{
    let t = a + b;
    assert(t.subrange(t.len() - b.len(), t.len() as int) =~= b);
}

proof fn lemma_format_line(format: Seq<char>, value: Seq<char>, encrypted: bool, after: Seq<char>)
    requires
        value == if encrypted {
            format + " [ENCRYPTED]"@
        } else {
            format
        },
    ensures
        ({
            let t = field_text("Format"@, value) + after;
            &&& !encrypted ==> text::begins(t, "Format     : "@ + format + "\n"@)
            &&& encrypted ==> text::begins(t, "Format     : "@ + format + " [ENCRYPTED]\n"@)
        }),
{
    lemma_labels_fourth();
    reveal_strlit("\n");
    reveal_strlit(" [ENCRYPTED]");
    reveal_strlit(" [ENCRYPTED]\n");
    assert(" [ENCRYPTED]"@ + "\n"@ =~= " [ENCRYPTED]\n"@);
    let t = field_text("Format"@, value) + after;
    let first = if encrypted {
        "Format     : "@ + format + " [ENCRYPTED]\n"@
    } else {
        "Format     : "@ + format + "\n"@
    };
    assert(field_text("Format"@, value) =~= first);
    assert(t.subrange(0, first.len() as int) =~= first);
}

#[verifier::spinoff_prover]
proof fn lemma_key_digest(k: PrivateKey)
    requires
        k.sha256 is Some,
    ensures
        text::on_line(key_rest(k, false), "SHA-256*   : "@ + hex_spaced_text(k.sha256->0@)),
{
    lemma_labels_third();
    let none = Seq::<char>::empty();
    let rsa = match k.rsa {
        Some(r) => rsa_text(r),
        None => none,
    };
    if let Some(r) = k.rsa {
        lemma_field_closed(
            "RSA pub exp"@,
            match r.exponent {
                Some(e) => e@,
                None => "<?>"@,
            },
        );
    }
    let value = hex_spaced_text(k.sha256->0@);
    lemma_line_of(rsa, "SHA-256*"@, "SHA-256*   : "@, value, none);
    assert(rsa + (field_text("SHA-256*"@, value) + none) =~= key_rest(k, false));
}

/// The report on a signing request tells whom it is for, its version and its key, each on a line of its
/// own.
#[verifier::spinoff_prover]
pub proof fn request_report_has_lines(r: SigningRequest)
    ensures
        ({
            let t = request_text(r);
            &&& text::on_line(t, "Subject    : "@ + name_text(r.subject@))
            &&& text::on_line(t, "Version    : "@ + text::signed_decimal(r.version as int))
            &&& text::on_line(t, "Pub key    : "@ + key_result_text(r.key))
        }),
{
    lemma_labels_first();
    lemma_labels_second();
    lemma_labels_fourth();
    let none = Seq::<char>::empty();
    let version = text::signed_decimal(r.version as int);
    let a = field_text("Subject"@, name_text(r.subject@));
    let b = field_text("Version"@, version);
    let c = field_text("Pub key"@, key_result_text(r.key));
    let t = request_text(r);
    lemma_field_closed("Subject"@, name_text(r.subject@));
    lemma_field_closed("Version"@, version);
    lemma_line_of(none, "Subject"@, "Subject    : "@, name_text(r.subject@), b + c);
    assert(none + (a + (b + c)) =~= t);
    lemma_line_of(a, "Version"@, "Version    : "@, version, c);
    assert(a + (b + c) =~= t);
    lemma_line_of(a + b, "Pub key"@, "Pub key    : "@, key_result_text(r.key), none);
    assert((a + b) + (c + none) =~= t);
}

/// What is told of a key is its type and how many bits it has; of one that cannot be read, why.
pub proof fn keys_are_told(k: Result<KeyInfo, String>)
    ensures
        k matches Ok(i) ==> key_result_text(k) == algorithm_text(i.id) + ", "@ + text::decimal(
            i.bits as nat,
        ) + " bit"@,
        k matches Err(e) ==> text::within(key_result_text(k), e@),
{
    if let Err(e) = k {
        text::lemma_within("<error: "@, e@, ">"@);
    }
}

/// The labels that are known differ.
pub proof fn lemma_labels_differ()
    ensures
        "X509 CERTIFICATE"@ != "CERTIFICATE"@,
        "TRUSTED CERTIFICATE"@ != "CERTIFICATE"@,
        "TRUSTED CERTIFICATE"@ != "X509 CERTIFICATE"@,
        "PRIVATE KEY"@ != "CERTIFICATE"@,
        "PRIVATE KEY"@ != "X509 CERTIFICATE"@,
        "PRIVATE KEY"@ != "TRUSTED CERTIFICATE"@,
        "RSA PRIVATE KEY"@ != "CERTIFICATE"@,
        "RSA PRIVATE KEY"@ != "X509 CERTIFICATE"@,
        "RSA PRIVATE KEY"@ != "TRUSTED CERTIFICATE"@,
        "RSA PRIVATE KEY"@ != "PRIVATE KEY"@,
        "EC PRIVATE KEY"@ != "CERTIFICATE"@,
        "EC PRIVATE KEY"@ != "X509 CERTIFICATE"@,
        "EC PRIVATE KEY"@ != "TRUSTED CERTIFICATE"@,
        "EC PRIVATE KEY"@ != "PRIVATE KEY"@,
        "EC PRIVATE KEY"@ != "RSA PRIVATE KEY"@,
        "ENCRYPTED PRIVATE KEY"@ != "CERTIFICATE"@,
        "ENCRYPTED PRIVATE KEY"@ != "X509 CERTIFICATE"@,
        "ENCRYPTED PRIVATE KEY"@ != "TRUSTED CERTIFICATE"@,
        "ENCRYPTED PRIVATE KEY"@ != "PRIVATE KEY"@,
        "ENCRYPTED PRIVATE KEY"@ != "RSA PRIVATE KEY"@,
        "ENCRYPTED PRIVATE KEY"@ != "EC PRIVATE KEY"@,
        "PUBLIC KEY"@ != "CERTIFICATE"@,
        "PUBLIC KEY"@ != "X509 CERTIFICATE"@,
        "PUBLIC KEY"@ != "TRUSTED CERTIFICATE"@,
        "PUBLIC KEY"@ != "PRIVATE KEY"@,
        "PUBLIC KEY"@ != "RSA PRIVATE KEY"@,
        "PUBLIC KEY"@ != "EC PRIVATE KEY"@,
        "PUBLIC KEY"@ != "ENCRYPTED PRIVATE KEY"@,
        "RSA PUBLIC KEY"@ != "CERTIFICATE"@,
        "RSA PUBLIC KEY"@ != "X509 CERTIFICATE"@,
        "RSA PUBLIC KEY"@ != "TRUSTED CERTIFICATE"@,
        "RSA PUBLIC KEY"@ != "PRIVATE KEY"@,
        "RSA PUBLIC KEY"@ != "RSA PRIVATE KEY"@,
        "RSA PUBLIC KEY"@ != "EC PRIVATE KEY"@,
        "RSA PUBLIC KEY"@ != "ENCRYPTED PRIVATE KEY"@,
        "RSA PUBLIC KEY"@ != "PUBLIC KEY"@,
        "EC PUBLIC KEY"@ != "CERTIFICATE"@,
        "EC PUBLIC KEY"@ != "X509 CERTIFICATE"@,
        "EC PUBLIC KEY"@ != "TRUSTED CERTIFICATE"@,
        "EC PUBLIC KEY"@ != "PRIVATE KEY"@,
        "EC PUBLIC KEY"@ != "RSA PRIVATE KEY"@,
        "EC PUBLIC KEY"@ != "EC PRIVATE KEY"@,
        "EC PUBLIC KEY"@ != "ENCRYPTED PRIVATE KEY"@,
        "EC PUBLIC KEY"@ != "PUBLIC KEY"@,
        "EC PUBLIC KEY"@ != "RSA PUBLIC KEY"@,
        "CERTIFICATE REQUEST"@ != "CERTIFICATE"@,
        "CERTIFICATE REQUEST"@ != "X509 CERTIFICATE"@,
        "CERTIFICATE REQUEST"@ != "TRUSTED CERTIFICATE"@,
        "CERTIFICATE REQUEST"@ != "PRIVATE KEY"@,
        "CERTIFICATE REQUEST"@ != "RSA PRIVATE KEY"@,
        "CERTIFICATE REQUEST"@ != "EC PRIVATE KEY"@,
        "CERTIFICATE REQUEST"@ != "ENCRYPTED PRIVATE KEY"@,
        "CERTIFICATE REQUEST"@ != "PUBLIC KEY"@,
        "CERTIFICATE REQUEST"@ != "RSA PUBLIC KEY"@,
        "CERTIFICATE REQUEST"@ != "EC PUBLIC KEY"@,
        "NEW CERTIFICATE REQUEST"@ != "CERTIFICATE"@,
        "NEW CERTIFICATE REQUEST"@ != "X509 CERTIFICATE"@,
        "NEW CERTIFICATE REQUEST"@ != "TRUSTED CERTIFICATE"@,
        "NEW CERTIFICATE REQUEST"@ != "PRIVATE KEY"@,
        "NEW CERTIFICATE REQUEST"@ != "RSA PRIVATE KEY"@,
        "NEW CERTIFICATE REQUEST"@ != "EC PRIVATE KEY"@,
        "NEW CERTIFICATE REQUEST"@ != "ENCRYPTED PRIVATE KEY"@,
        "NEW CERTIFICATE REQUEST"@ != "PUBLIC KEY"@,
        "NEW CERTIFICATE REQUEST"@ != "RSA PUBLIC KEY"@,
        "NEW CERTIFICATE REQUEST"@ != "EC PUBLIC KEY"@,
        "NEW CERTIFICATE REQUEST"@ != "CERTIFICATE REQUEST"@,
{
    reveal_strlit("CERTIFICATE");
    reveal_strlit("X509 CERTIFICATE");
    reveal_strlit("TRUSTED CERTIFICATE");
    reveal_strlit("PRIVATE KEY");
    reveal_strlit("RSA PRIVATE KEY");
    reveal_strlit("EC PRIVATE KEY");
    reveal_strlit("ENCRYPTED PRIVATE KEY");
    reveal_strlit("PUBLIC KEY");
    reveal_strlit("RSA PUBLIC KEY");
    reveal_strlit("EC PUBLIC KEY");
    reveal_strlit("CERTIFICATE REQUEST");
    reveal_strlit("NEW CERTIFICATE REQUEST");
    assert("X509 CERTIFICATE"@.len() != "CERTIFICATE"@.len());
    assert("TRUSTED CERTIFICATE"@.len() != "CERTIFICATE"@.len());
    assert("TRUSTED CERTIFICATE"@.len() != "X509 CERTIFICATE"@.len());
    assert("PRIVATE KEY"@[0] != "CERTIFICATE"@[0]);
    assert("PRIVATE KEY"@.len() != "X509 CERTIFICATE"@.len());
    assert("PRIVATE KEY"@.len() != "TRUSTED CERTIFICATE"@.len());
    assert("RSA PRIVATE KEY"@.len() != "CERTIFICATE"@.len());
    assert("RSA PRIVATE KEY"@.len() != "X509 CERTIFICATE"@.len());
    assert("RSA PRIVATE KEY"@.len() != "TRUSTED CERTIFICATE"@.len());
    assert("RSA PRIVATE KEY"@.len() != "PRIVATE KEY"@.len());
    assert("EC PRIVATE KEY"@.len() != "CERTIFICATE"@.len());
    assert("EC PRIVATE KEY"@.len() != "X509 CERTIFICATE"@.len());
    assert("EC PRIVATE KEY"@.len() != "TRUSTED CERTIFICATE"@.len());
    assert("EC PRIVATE KEY"@.len() != "PRIVATE KEY"@.len());
    assert("EC PRIVATE KEY"@.len() != "RSA PRIVATE KEY"@.len());
    assert("ENCRYPTED PRIVATE KEY"@.len() != "CERTIFICATE"@.len());
    assert("ENCRYPTED PRIVATE KEY"@.len() != "X509 CERTIFICATE"@.len());
    assert("ENCRYPTED PRIVATE KEY"@.len() != "TRUSTED CERTIFICATE"@.len());
    assert("ENCRYPTED PRIVATE KEY"@.len() != "PRIVATE KEY"@.len());
    assert("ENCRYPTED PRIVATE KEY"@.len() != "RSA PRIVATE KEY"@.len());
    assert("ENCRYPTED PRIVATE KEY"@.len() != "EC PRIVATE KEY"@.len());
    assert("PUBLIC KEY"@.len() != "CERTIFICATE"@.len());
    assert("PUBLIC KEY"@.len() != "X509 CERTIFICATE"@.len());
    assert("PUBLIC KEY"@.len() != "TRUSTED CERTIFICATE"@.len());
    assert("PUBLIC KEY"@.len() != "PRIVATE KEY"@.len());
    assert("PUBLIC KEY"@.len() != "RSA PRIVATE KEY"@.len());
    assert("PUBLIC KEY"@.len() != "EC PRIVATE KEY"@.len());
    assert("PUBLIC KEY"@.len() != "ENCRYPTED PRIVATE KEY"@.len());
    assert("RSA PUBLIC KEY"@.len() != "CERTIFICATE"@.len());
    assert("RSA PUBLIC KEY"@.len() != "X509 CERTIFICATE"@.len());
    assert("RSA PUBLIC KEY"@.len() != "TRUSTED CERTIFICATE"@.len());
    assert("RSA PUBLIC KEY"@.len() != "PRIVATE KEY"@.len());
    assert("RSA PUBLIC KEY"@.len() != "RSA PRIVATE KEY"@.len());
    assert("RSA PUBLIC KEY"@[0] != "EC PRIVATE KEY"@[0]);
    assert("RSA PUBLIC KEY"@.len() != "ENCRYPTED PRIVATE KEY"@.len());
    assert("RSA PUBLIC KEY"@.len() != "PUBLIC KEY"@.len());
    assert("EC PUBLIC KEY"@.len() != "CERTIFICATE"@.len());
    assert("EC PUBLIC KEY"@.len() != "X509 CERTIFICATE"@.len());
    assert("EC PUBLIC KEY"@.len() != "TRUSTED CERTIFICATE"@.len());
    assert("EC PUBLIC KEY"@.len() != "PRIVATE KEY"@.len());
    assert("EC PUBLIC KEY"@.len() != "RSA PRIVATE KEY"@.len());
    assert("EC PUBLIC KEY"@.len() != "EC PRIVATE KEY"@.len());
    assert("EC PUBLIC KEY"@.len() != "ENCRYPTED PRIVATE KEY"@.len());
    assert("EC PUBLIC KEY"@.len() != "PUBLIC KEY"@.len());
    assert("EC PUBLIC KEY"@.len() != "RSA PUBLIC KEY"@.len());
    assert("CERTIFICATE REQUEST"@.len() != "CERTIFICATE"@.len());
    assert("CERTIFICATE REQUEST"@.len() != "X509 CERTIFICATE"@.len());
    assert("CERTIFICATE REQUEST"@[0] != "TRUSTED CERTIFICATE"@[0]);
    assert("CERTIFICATE REQUEST"@.len() != "PRIVATE KEY"@.len());
    assert("CERTIFICATE REQUEST"@.len() != "RSA PRIVATE KEY"@.len());
    assert("CERTIFICATE REQUEST"@.len() != "EC PRIVATE KEY"@.len());
    assert("CERTIFICATE REQUEST"@.len() != "ENCRYPTED PRIVATE KEY"@.len());
    assert("CERTIFICATE REQUEST"@.len() != "PUBLIC KEY"@.len());
    assert("CERTIFICATE REQUEST"@.len() != "RSA PUBLIC KEY"@.len());
    assert("CERTIFICATE REQUEST"@.len() != "EC PUBLIC KEY"@.len());
    assert("NEW CERTIFICATE REQUEST"@.len() != "CERTIFICATE"@.len());
    assert("NEW CERTIFICATE REQUEST"@.len() != "X509 CERTIFICATE"@.len());
    assert("NEW CERTIFICATE REQUEST"@.len() != "TRUSTED CERTIFICATE"@.len());
    assert("NEW CERTIFICATE REQUEST"@.len() != "PRIVATE KEY"@.len());
    assert("NEW CERTIFICATE REQUEST"@.len() != "RSA PRIVATE KEY"@.len());
    assert("NEW CERTIFICATE REQUEST"@.len() != "EC PRIVATE KEY"@.len());
    assert("NEW CERTIFICATE REQUEST"@.len() != "ENCRYPTED PRIVATE KEY"@.len());
    assert("NEW CERTIFICATE REQUEST"@.len() != "PUBLIC KEY"@.len());
    assert("NEW CERTIFICATE REQUEST"@.len() != "RSA PUBLIC KEY"@.len());
    assert("NEW CERTIFICATE REQUEST"@.len() != "EC PUBLIC KEY"@.len());
    assert("NEW CERTIFICATE REQUEST"@.len() != "CERTIFICATE REQUEST"@.len());
}

/// A label is described by what stands in its section, and no two kinds are described alike.
pub proof fn labels_are_described(label: Seq<char>)
    ensures
        (label_text(label) == "X.509 certificate"@) == (label == "CERTIFICATE"@ || label
            == "X509 CERTIFICATE"@ || label == "TRUSTED CERTIFICATE"@),
        (label_text(label) == "CSR (PKCS#10)"@) == (label == "CERTIFICATE REQUEST"@ || label
            == "NEW CERTIFICATE REQUEST"@),
        (label_text(label) == "private key (PKCS#8)"@) == (label == "PRIVATE KEY"@),
        (label_text(label) == "encrypted private key (PKCS#8)"@) == (label
            == "ENCRYPTED PRIVATE KEY"@),
        (label_text(label) == "private key (PKCS#1 RSA)"@) == (label == "RSA PRIVATE KEY"@),
        (label_text(label) == "private key (SEC1 EC)"@) == (label == "EC PRIVATE KEY"@),
        (label_text(label) == "public key (SPKI)"@) == (label == "PUBLIC KEY"@),
        (label_text(label) == "public key (PKCS#1 RSA)"@) == (label == "RSA PUBLIC KEY"@),
        (label_text(label) == "public key (EC point)"@) == (label == "EC PUBLIC KEY"@),
{
    lemma_labels_differ();
    lemma_descriptions_differ();
}

pub proof fn lemma_descriptions_differ()
    ensures
        "private key (PKCS#8)"@ != "X.509 certificate"@,
        "encrypted private key (PKCS#8)"@ != "X.509 certificate"@,
        "encrypted private key (PKCS#8)"@ != "private key (PKCS#8)"@,
        "private key (PKCS#1 RSA)"@ != "X.509 certificate"@,
        "private key (PKCS#1 RSA)"@ != "private key (PKCS#8)"@,
        "private key (PKCS#1 RSA)"@ != "encrypted private key (PKCS#8)"@,
        "private key (SEC1 EC)"@ != "X.509 certificate"@,
        "private key (SEC1 EC)"@ != "private key (PKCS#8)"@,
        "private key (SEC1 EC)"@ != "encrypted private key (PKCS#8)"@,
        "private key (SEC1 EC)"@ != "private key (PKCS#1 RSA)"@,
        "public key (SPKI)"@ != "X.509 certificate"@,
        "public key (SPKI)"@ != "private key (PKCS#8)"@,
        "public key (SPKI)"@ != "encrypted private key (PKCS#8)"@,
        "public key (SPKI)"@ != "private key (PKCS#1 RSA)"@,
        "public key (SPKI)"@ != "private key (SEC1 EC)"@,
        "public key (PKCS#1 RSA)"@ != "X.509 certificate"@,
        "public key (PKCS#1 RSA)"@ != "private key (PKCS#8)"@,
        "public key (PKCS#1 RSA)"@ != "encrypted private key (PKCS#8)"@,
        "public key (PKCS#1 RSA)"@ != "private key (PKCS#1 RSA)"@,
        "public key (PKCS#1 RSA)"@ != "private key (SEC1 EC)"@,
        "public key (PKCS#1 RSA)"@ != "public key (SPKI)"@,
        "public key (EC point)"@ != "X.509 certificate"@,
        "public key (EC point)"@ != "private key (PKCS#8)"@,
        "public key (EC point)"@ != "encrypted private key (PKCS#8)"@,
        "public key (EC point)"@ != "private key (PKCS#1 RSA)"@,
        "public key (EC point)"@ != "private key (SEC1 EC)"@,
        "public key (EC point)"@ != "public key (SPKI)"@,
        "public key (EC point)"@ != "public key (PKCS#1 RSA)"@,
        "CSR (PKCS#10)"@ != "X.509 certificate"@,
        "CSR (PKCS#10)"@ != "private key (PKCS#8)"@,
        "CSR (PKCS#10)"@ != "encrypted private key (PKCS#8)"@,
        "CSR (PKCS#10)"@ != "private key (PKCS#1 RSA)"@,
        "CSR (PKCS#10)"@ != "private key (SEC1 EC)"@,
        "CSR (PKCS#10)"@ != "public key (SPKI)"@,
        "CSR (PKCS#10)"@ != "public key (PKCS#1 RSA)"@,
        "CSR (PKCS#10)"@ != "public key (EC point)"@,
        "unrecognized"@ != "X.509 certificate"@,
        "unrecognized"@ != "private key (PKCS#8)"@,
        "unrecognized"@ != "encrypted private key (PKCS#8)"@,
        "unrecognized"@ != "private key (PKCS#1 RSA)"@,
        "unrecognized"@ != "private key (SEC1 EC)"@,
        "unrecognized"@ != "public key (SPKI)"@,
        "unrecognized"@ != "public key (PKCS#1 RSA)"@,
        "unrecognized"@ != "public key (EC point)"@,
        "unrecognized"@ != "CSR (PKCS#10)"@,
{
    reveal_strlit("X.509 certificate");
    reveal_strlit("private key (PKCS#8)");
    reveal_strlit("encrypted private key (PKCS#8)");
    reveal_strlit("private key (PKCS#1 RSA)");
    reveal_strlit("private key (SEC1 EC)");
    reveal_strlit("public key (SPKI)");
    reveal_strlit("public key (PKCS#1 RSA)");
    reveal_strlit("public key (EC point)");
    reveal_strlit("CSR (PKCS#10)");
    reveal_strlit("unrecognized");
    assert("private key (PKCS#8)"@.len() != "X.509 certificate"@.len());
    assert("encrypted private key (PKCS#8)"@.len() != "X.509 certificate"@.len());
    assert("encrypted private key (PKCS#8)"@.len() != "private key (PKCS#8)"@.len());
    assert("private key (PKCS#1 RSA)"@.len() != "X.509 certificate"@.len());
    assert("private key (PKCS#1 RSA)"@.len() != "private key (PKCS#8)"@.len());
    assert("private key (PKCS#1 RSA)"@.len() != "encrypted private key (PKCS#8)"@.len());
    assert("private key (SEC1 EC)"@.len() != "X.509 certificate"@.len());
    assert("private key (SEC1 EC)"@.len() != "private key (PKCS#8)"@.len());
    assert("private key (SEC1 EC)"@.len() != "encrypted private key (PKCS#8)"@.len());
    assert("private key (SEC1 EC)"@.len() != "private key (PKCS#1 RSA)"@.len());
    assert("public key (SPKI)"@[0] != "X.509 certificate"@[0]);
    assert("public key (SPKI)"@.len() != "private key (PKCS#8)"@.len());
    assert("public key (SPKI)"@.len() != "encrypted private key (PKCS#8)"@.len());
    assert("public key (SPKI)"@.len() != "private key (PKCS#1 RSA)"@.len());
    assert("public key (SPKI)"@.len() != "private key (SEC1 EC)"@.len());
    assert("public key (PKCS#1 RSA)"@.len() != "X.509 certificate"@.len());
    assert("public key (PKCS#1 RSA)"@.len() != "private key (PKCS#8)"@.len());
    assert("public key (PKCS#1 RSA)"@.len() != "encrypted private key (PKCS#8)"@.len());
    assert("public key (PKCS#1 RSA)"@.len() != "private key (PKCS#1 RSA)"@.len());
    assert("public key (PKCS#1 RSA)"@.len() != "private key (SEC1 EC)"@.len());
    assert("public key (PKCS#1 RSA)"@.len() != "public key (SPKI)"@.len());
    assert("public key (EC point)"@.len() != "X.509 certificate"@.len());
    assert("public key (EC point)"@.len() != "private key (PKCS#8)"@.len());
    assert("public key (EC point)"@.len() != "encrypted private key (PKCS#8)"@.len());
    assert("public key (EC point)"@.len() != "private key (PKCS#1 RSA)"@.len());
    assert("public key (EC point)"@[1] != "private key (SEC1 EC)"@[1]);
    assert("public key (EC point)"@.len() != "public key (SPKI)"@.len());
    assert("public key (EC point)"@.len() != "public key (PKCS#1 RSA)"@.len());
    assert("CSR (PKCS#10)"@.len() != "X.509 certificate"@.len());
    assert("CSR (PKCS#10)"@.len() != "private key (PKCS#8)"@.len());
    assert("CSR (PKCS#10)"@.len() != "encrypted private key (PKCS#8)"@.len());
    assert("CSR (PKCS#10)"@.len() != "private key (PKCS#1 RSA)"@.len());
    assert("CSR (PKCS#10)"@.len() != "private key (SEC1 EC)"@.len());
    assert("CSR (PKCS#10)"@.len() != "public key (SPKI)"@.len());
    assert("CSR (PKCS#10)"@.len() != "public key (PKCS#1 RSA)"@.len());
    assert("CSR (PKCS#10)"@.len() != "public key (EC point)"@.len());
    assert("unrecognized"@.len() != "X.509 certificate"@.len());
    assert("unrecognized"@.len() != "private key (PKCS#8)"@.len());
    assert("unrecognized"@.len() != "encrypted private key (PKCS#8)"@.len());
    assert("unrecognized"@.len() != "private key (PKCS#1 RSA)"@.len());
    assert("unrecognized"@.len() != "private key (SEC1 EC)"@.len());
    assert("unrecognized"@.len() != "public key (SPKI)"@.len());
    assert("unrecognized"@.len() != "public key (PKCS#1 RSA)"@.len());
    assert("unrecognized"@.len() != "public key (EC point)"@.len());
    assert("unrecognized"@.len() != "CSR (PKCS#10)"@.len());
}

proof fn lemma_algorithms_differ()
    ensures
        "RSA-PSS"@ != "RSA"@,
        "DSA"@ != "RSA"@,
        "DSA"@ != "RSA-PSS"@,
        "DH"@ != "RSA"@,
        "DH"@ != "RSA-PSS"@,
        "DH"@ != "DSA"@,
        "EC"@ != "RSA"@,
        "EC"@ != "RSA-PSS"@,
        "EC"@ != "DSA"@,
        "EC"@ != "DH"@,
        "Ed25519"@ != "RSA"@,
        "Ed25519"@ != "RSA-PSS"@,
        "Ed25519"@ != "DSA"@,
        "Ed25519"@ != "DH"@,
        "Ed25519"@ != "EC"@,
        "Ed448"@ != "RSA"@,
        "Ed448"@ != "RSA-PSS"@,
        "Ed448"@ != "DSA"@,
        "Ed448"@ != "DH"@,
        "Ed448"@ != "EC"@,
        "Ed448"@ != "Ed25519"@,
        "X25519"@ != "RSA"@,
        "X25519"@ != "RSA-PSS"@,
        "X25519"@ != "DSA"@,
        "X25519"@ != "DH"@,
        "X25519"@ != "EC"@,
        "X25519"@ != "Ed25519"@,
        "X25519"@ != "Ed448"@,
        "X448"@ != "RSA"@,
        "X448"@ != "RSA-PSS"@,
        "X448"@ != "DSA"@,
        "X448"@ != "DH"@,
        "X448"@ != "EC"@,
        "X448"@ != "Ed25519"@,
        "X448"@ != "Ed448"@,
        "X448"@ != "X25519"@,
        "unknown"@ != "RSA"@,
        "unknown"@ != "RSA-PSS"@,
        "unknown"@ != "DSA"@,
        "unknown"@ != "DH"@,
        "unknown"@ != "EC"@,
        "unknown"@ != "Ed25519"@,
        "unknown"@ != "Ed448"@,
        "unknown"@ != "X25519"@,
        "unknown"@ != "X448"@,
{
    reveal_strlit("RSA");
    reveal_strlit("RSA-PSS");
    reveal_strlit("DSA");
    reveal_strlit("DH");
    reveal_strlit("EC");
    reveal_strlit("Ed25519");
    reveal_strlit("Ed448");
    reveal_strlit("X25519");
    reveal_strlit("X448");
    reveal_strlit("unknown");
    assert("RSA-PSS"@.len() != "RSA"@.len());
    assert("DSA"@[0] != "RSA"@[0]);
    assert("DSA"@.len() != "RSA-PSS"@.len());
    assert("DH"@.len() != "RSA"@.len());
    assert("DH"@.len() != "RSA-PSS"@.len());
    assert("DH"@.len() != "DSA"@.len());
    assert("EC"@.len() != "RSA"@.len());
    assert("EC"@.len() != "RSA-PSS"@.len());
    assert("EC"@.len() != "DSA"@.len());
    assert("EC"@[0] != "DH"@[0]);
    assert("Ed25519"@.len() != "RSA"@.len());
    assert("Ed25519"@[0] != "RSA-PSS"@[0]);
    assert("Ed25519"@.len() != "DSA"@.len());
    assert("Ed25519"@.len() != "DH"@.len());
    assert("Ed25519"@.len() != "EC"@.len());
    assert("Ed448"@.len() != "RSA"@.len());
    assert("Ed448"@.len() != "RSA-PSS"@.len());
    assert("Ed448"@.len() != "DSA"@.len());
    assert("Ed448"@.len() != "DH"@.len());
    assert("Ed448"@.len() != "EC"@.len());
    assert("Ed448"@.len() != "Ed25519"@.len());
    assert("X25519"@.len() != "RSA"@.len());
    assert("X25519"@.len() != "RSA-PSS"@.len());
    assert("X25519"@.len() != "DSA"@.len());
    assert("X25519"@.len() != "DH"@.len());
    assert("X25519"@.len() != "EC"@.len());
    assert("X25519"@.len() != "Ed25519"@.len());
    assert("X25519"@.len() != "Ed448"@.len());
    assert("X448"@.len() != "RSA"@.len());
    assert("X448"@.len() != "RSA-PSS"@.len());
    assert("X448"@.len() != "DSA"@.len());
    assert("X448"@.len() != "DH"@.len());
    assert("X448"@.len() != "EC"@.len());
    assert("X448"@.len() != "Ed25519"@.len());
    assert("X448"@.len() != "Ed448"@.len());
    assert("X448"@.len() != "X25519"@.len());
    assert("unknown"@.len() != "RSA"@.len());
    assert("unknown"@[0] != "RSA-PSS"@[0]);
    assert("unknown"@.len() != "DSA"@.len());
    assert("unknown"@.len() != "DH"@.len());
    assert("unknown"@.len() != "EC"@.len());
    assert("unknown"@[0] != "Ed25519"@[0]);
    assert("unknown"@.len() != "Ed448"@.len());
    assert("unknown"@.len() != "X25519"@.len());
    assert("unknown"@.len() != "X448"@.len());
}

/// Every type of keys has its name, by the number that OpenSSL gives it; other types are unknown.
pub proof fn algorithms_are_named(id: i32)
    ensures
        (algorithm_text(id) == "RSA"@) == (id == 6),
        (algorithm_text(id) == "RSA-PSS"@) == (id == 912),
        (algorithm_text(id) == "DSA"@) == (id == 116),
        (algorithm_text(id) == "DH"@) == (id == 28),
        (algorithm_text(id) == "EC"@) == (id == 408),
        (algorithm_text(id) == "Ed25519"@) == (id == 1087),
        (algorithm_text(id) == "Ed448"@) == (id == 1088),
        (algorithm_text(id) == "X25519"@) == (id == 1034),
        (algorithm_text(id) == "X448"@) == (id == 1035),
{
    lemma_algorithms_differ();
}

/// The notes on extensions: the length of the path first, the identifier of the certificate's own key
/// after it, and that of its issuer's key last, each if there is one.
pub proof fn extensions_are_told(c: Certificate)
    ensures
        ({
            let notes = extension_texts(c);
            &&& notes.len() == (if c.path_length is Some {
                1int
            } else {
                0
            }) + (if c.subject_key_id is Some {
                1int
            } else {
                0
            }) + (if c.authority_key_id is Some {
                1int
            } else {
                0
            })
            &&& c.path_length matches Some(n) ==> text::ends(
                notes[0],
                "CA, pathlen="@ + text::decimal(n as nat),
            )
            &&& c.subject_key_id matches Some(k) ==> notes.contains("SKI: "@ + hex_spaced_text(k@))
            &&& c.authority_key_id matches Some(k) ==> notes.last() == "AKI: "@ + hex_spaced_text(k@)
        }),
{
    let notes = extension_texts(c);
    if let Some(n) = c.path_length {
        reveal_strlit("basicConstraints: CA, pathlen=");
        reveal_strlit("CA, pathlen=");
        let t = notes[0];
        let tail = "CA, pathlen="@ + text::decimal(n as nat);
        assert(t.subrange(t.len() - tail.len(), t.len() as int) =~= tail);
    }
    if let Some(k) = c.subject_key_id {
        let i: int = if c.path_length is Some {
            1
        } else {
            0
        };
        assert(notes[i] == "SKI: "@ + hex_spaced_text(k@));
    }
}

/// The report on an encrypted key hides the digest: it is the same for all keys of one type and size
/// with the same public parameters.
pub proof fn encrypted_keys_stay_hidden(a: PrivateKey, b: PrivateKey, label: Seq<char>)
    requires
        a.info == b.info,
        a.rsa == b.rsa,
    ensures
        private_key_text(a, label, true) == private_key_text(b, label, true),
{
}

} // verus!
