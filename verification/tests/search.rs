use nephrite4::query::error::Error;
use nephrite4::query::search::{
    attr_f2a_sql, attr_sql, gen_sql, search_sql, sel_exists, sel_list_sql, sel_load_sql,
    sel_save_mode, to_search, Search, SelSave,
};

fn show(s: &Search) -> String {
    format!("{:?}", s)
}

#[test]
fn words_of_a_query() {
    assert_eq!(show(&to_search("+tag")), show(&Search::Tag("tag".to_string(), true)));
    assert_eq!(show(&to_search("-tag")), show(&Search::Tag("tag".to_string(), false)));
    assert_eq!(show(&to_search("+")), show(&Search::Tag(String::new(), true)));
    assert_eq!(show(&to_search("+a:b")), show(&Search::Tag("a:b".to_string(), true)));
    assert_eq!(
        show(&to_search("name:a.txt")),
        show(&Search::Attr("name".to_string(), false, "a.txt".to_string(), false))
    );
    assert_eq!(
        show(&to_search("na_e:a%")),
        show(&Search::Attr("na_e".to_string(), true, "a%".to_string(), true))
    );
    // the last colon parts key and value
    assert_eq!(
        show(&to_search("a:b:c_")),
        show(&Search::Attr("a:b".to_string(), false, "c_".to_string(), true))
    );
    assert_eq!(
        show(&to_search(":")),
        show(&Search::Attr(String::new(), false, String::new(), false))
    );
    assert_eq!(show(&to_search("hello")), show(&Search::Fts("hello".to_string())));
    assert_eq!(show(&to_search("")), show(&Search::Fts(String::new())));
    assert_eq!(show(&to_search("a+b")), show(&Search::Fts("a+b".to_string())));
}

#[test]
fn statements_of_patterns() {
    assert_eq!(
        gen_sql(&Search::Tag("x".to_string(), true)),
        "select fid from obj.doc where attr ? 'tag' and (attr->>'tag' = 'x' or attr->>'tag' like '%\"x\"%')"
    );
    assert_eq!(
        gen_sql(&Search::Tag("x".to_string(), false)),
        "select fid from obj.doc group by fid having not bool_or(attr->>'tag' = 'x' or attr->>'tag' like '%\"x\"%')"
    );
    assert_eq!(
        gen_sql(&Search::Attr("k".to_string(), true, "v".to_string(), false)),
        "select z0.fid from obj.doc as z0, lateral (select * from jsonb_each_text(z0.attr) where \"key\" ilike 'k' and (\"value\" = 'v' or \"value\" like '%\"v\"%')) as z1"
    );
    assert_eq!(
        gen_sql(&Search::Attr("k".to_string(), true, "v".to_string(), true)),
        "select z0.fid from obj.doc as z0, lateral (select * from jsonb_each_text(z0.attr) where \"key\" ilike 'k' and (\"value\" ilike 'v' or \"value\" ilike '%\"v\"%')) as z1"
    );
    assert_eq!(
        gen_sql(&Search::Attr("k".to_string(), false, "v".to_string(), false)),
        "select fid from obj.doc where (attr->>'k' = 'v') or (attr->>'k' like '%\"v\"%')"
    );
    assert_eq!(
        gen_sql(&Search::Attr("k".to_string(), false, "v".to_string(), true)),
        "select fid from obj.doc where (attr->>'k' ilike 'v') or (attr->>'k' ilike '%\"v\"%')"
    );
    assert_eq!(
        gen_sql(&Search::Fts("ab% c%%".to_string())),
        "select fid from obj.fts where to_tsquery('ab:* c:*:*') @@ doc"
    );
    assert_eq!(
        gen_sql(&Search::Fts(String::new())),
        "select fid from obj.fts where to_tsquery('') @@ doc"
    );
}

#[test]
fn the_statement_of_a_search() {
    assert_eq!(
        search_sql(&[], false, 0),
        "select distinct x.id, x.rid from (select id, rid from obj.anno where obsolete = false) as x where  true"
    );
    assert_eq!(
        search_sql(&[], true, -1),
        "select distinct x.id, x.rid from (select id, rid from obj.anno ) as x where  true"
    );
    let patt = vec![to_search("+a"), to_search("b")];
    assert_eq!(
        search_sql(&patt, true, 10),
        format!(
            "select distinct x.id, x.rid from (select id, rid from obj.anno ) as x, ({}) as y0, ({}) as y1 where  y0.fid = x.rid and  y1.fid = x.rid and  true limit 10",
            gen_sql(&patt[0]),
            gen_sql(&patt[1])
        )
    );
    let many: Vec<Search> = (0..11).map(|_| to_search("x")).collect();
    let sql = search_sql(&many, false, i64::MAX);
    assert!(sql.contains(") as y10 where "));
    assert!(sql.contains(" y10.fid = x.rid and  true limit 9223372036854775807"));
}

#[test]
fn statements_of_metadata_and_selections() {
    assert_eq!(attr_sql(), "select attr from obj.doc where id = $1");
    assert_eq!(
        attr_f2a_sql(true),
        "select distinct doc.attr from obj.doc, obj.anno where anno.rid = $1 and anno.id = doc.id"
    );
    assert_eq!(
        attr_f2a_sql(false),
        "select distinct doc.attr from obj.doc, obj.anno where anno.rid = $1 and anno.id = doc.id and anno.obsolete = false"
    );
    assert_eq!(sel_load_sql(true), "select id from sel.tmp where sel = $1");
    assert_eq!(sel_load_sql(false), "select id from sel.pers where sel = $1");
    assert_eq!(sel_list_sql(true), "select sel from sel.tmp group by sel");
    assert_eq!(sel_list_sql(false), "select sel from sel.pers group by sel");
    assert_eq!(sel_save_mode(true, true), SelSave::Clear);
    assert_eq!(sel_save_mode(true, false), SelSave::Clear);
    assert_eq!(sel_save_mode(false, true), SelSave::Append);
    assert_eq!(sel_save_mode(false, false), SelSave::MustBeNew);
    assert!(matches!(sel_exists("mine"), Error::Simple(ref m) if m == "sel 'mine' already exist"));
}

#[test]
fn failures_of_the_index() {
    assert_eq!(nephrite4::query::error::err_simple("x").message(), "SimpleError: x");
    let r: Result<(), Error> = nephrite4::query::error::err("boom");
    assert!(matches!(r, Err(Error::Simple(ref m)) if m == "boom"));
    assert_eq!(Error::Pg("no table".to_string()).message(), "no table");
    let e = Error::from_common(nephrite4::error::Error::Simple("a".to_string()));
    assert!(matches!(e, Error::Simple(ref m) if m == "a"));
    let e = Error::from_common(nephrite4::error::err_not_found("b"));
    assert!(matches!(e, Error::IO(ref m) if m == "b"));
    let e = Error::from_common(nephrite4::error::Error::Format("c".to_string()));
    assert!(matches!(e, Error::CErr(ref m) if m == "FormatError: c"));
}
