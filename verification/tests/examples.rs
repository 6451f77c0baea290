use linebreak::lines::error::BreakError;
use linebreak::lines::paragraph::break_paragraph;

/// Texts with the line width and the tolerance they are broken for, and what
/// comes of it: the marked text, or nothing where no breaking is feasible.
/// Each was worked out apart from the library.
fn worked_examples() -> Vec<(&'static str, u32, u16, Option<&'static str>)> {
    vec![
        ("bcbcn,t-e c", 40, 1, None),
        ("ti ias beo,.-", 40, 0, None),
        (". atr, -awiin a-rain,dos a,m", 20, 1, None),
        ("neatewo;sts . d-;s;- toede-w no", 80, 5, None),
        ("t s wrm,-;.a", 100, 0, None),
        ("d-re rb.", 100, 1, None),
        ("naocece r bmda- rbdr s;m-a i d-c", 150, 2, None),
        (",rac irb,tc-s; b,ee,eba", 40, 2, None),
        ("cneomb ,b aecaa sa aicesensnbn ec e", 80, 10, None),
        ("tcis cdc", 20, 2, None),
        ("n sw", 40, 0, None),
        ("terdc-t;ei oe on,ss--dc", 20, 1, None),
        ("me twe ,eb do", 60, 0, None),
        ("a n c en wa;nmoiis", 80, 0, None),
        ("ae. rnie.;n s", 30, 1, None),
        ("setedb ; oa mabao; cdmw;ne, wm,e a", 150, 5, Some("setedb ; oa mabao&shy;; cdmw;ne, wm,e a")),
        ("nrcssd;e--c an.d,antie,", 60, 10, Some("nrcssd&shy;;e--c an&shy;.d&shy;,antie,")),
        ("w t sb,as,wa-ibm- dn", 40, 1, None),
        ("wawt,w e b n,,cte o   wa", 30, 5, None),
        (",a-na", 80, 2, None),
        ("o", 80, 0, Some("o")),
        ("e;n-am-a.,w-rwbeto", 20, 2, None),
        ("ad", 100, 0, Some("ad")),
        ("in ;wt-,awen ms.cmsona  cwten d", 150, 2, None),
        ("cr,id", 40, 10, Some("cr,id")),
        ("mb.  o.bemcrn;bd", 100, 10, Some("mb.  o&shy;.bemcrn;bd")),
        ("woasdom ;-ncdrr d", 60, 10, None),
        ("csenba, ciee o;bnoam srmbdarrm", 150, 10, Some("csenba, ciee o&shy;;bnoam srmbdarrm")),
        ("wt-r,ot eers;;c.o", 30, 1, None),
        ("- dc n", 20, 5, None),
        ("s e.mb,e;aweo", 150, 5, Some("s e.mb,e;aweo")),
        ("neon-titao n- we ac.m", 100, 0, None),
        ("erin , m  cwn. rom.ow ctbc ;.da", 60, 2, None),
        ("aacd;d i   eern..bc wrd", 150, 1, Some("aacd&shy;;d i   eern..bc wrd")),
        ("w nes-a-; mebmdit;w ato.birti.m,e d", 40, 2, None),
        (". bsbe", 40, 10, None),
        ("-", 20, 0, Some("-")),
        ("rw-on a ,a r.tebcs", 40, 5, None),
        ("wrs", 100, 5, Some("wrs")),
        ("a; rw,.b;iadm -at.imc,b", 60, 10, Some("a; rw,.b&shy;;iadm &shy;-at&shy;.imc,b")),
        ("s", 80, 2, Some("s")),
        (";;", 40, 10, Some(";;")),
        ("borm,;daniscwn.wi me.b", 20, 0, None),
        ("aato.mem  b .oasc;ietober,aoont s;", 80, 1, None),
        ("twai. .wei s dbcceom-a  mam  bnei", 30, 1, None),
        (".", 150, 5, None),
        ("aie  e", 40, 10, Some("aie  e")),
        ("awra-a ste,eactc", 80, 5, Some("awra-a&shy; ste,eactc")),
    ]
}

#[test]
fn the_worked_examples_come_out_as_expected() {
    for (text, target_width, ratio_max, expected) in worked_examples() {
        let broken = break_paragraph(text, target_width, ratio_max);
        match expected {
            Some(marked) => assert_eq!(broken, Ok(String::from(marked)), "{:?}", text),
            None => assert_eq!(
                broken,
                Err(BreakError::NoFeasibleBreak { ratio_max }),
                "{:?}",
                text
            ),
        }
    }
}

#[test]
fn among_the_worked_examples_are_both_outcomes() {
    let examples = worked_examples();
    assert!(examples.iter().any(|example| example.3.is_some()));
    assert!(examples.iter().any(|example| example.3.is_none()));
}
