use vstd::prelude::*;
use crate::extract::{LiveRow, VideoRow};
use crate::text::{chars_of, string_of};

verus! {

/// A character that forces a CSV field into quotes.
pub open spec fn is_csv_special(c: char) -> bool {
    c == ',' || c == '"' || c == '\n' || c == '\r'
}

/// `s` holds a character that forces it into quotes.
pub open spec fn needs_quotes(s: Seq<char>) -> bool {
    exists|i: int| 0 <= i < s.len() && is_csv_special(#[trigger] s[i])
}

/// `s` with each double quote written twice.
pub open spec fn double_quotes(s: Seq<char>) -> Seq<char>
    decreases s.len(),
{
    if s.len() == 0 {
        Seq::empty()
    } else if s.last() == '"' {
        double_quotes(s.drop_last()) + seq!['"', '"']
    } else {
        double_quotes(s.drop_last()).push(s.last())
    }
}

/// A field as a CSV file holds it: in double quotes, with its own quotes doubled, when
/// it holds a comma, a quote or a line break; as it is otherwise.
pub open spec fn csv_field(s: Seq<char>) -> Seq<char> {
    if needs_quotes(s) {
        seq!['"'] + double_quotes(s) + seq!['"']
    } else {
        s
    }
}

/// Fields separated by commas.
pub open spec fn csv_fields(fields: Seq<Seq<char>>) -> Seq<char>
    decreases fields.len(),
{
    if fields.len() == 0 {
        Seq::empty()
    } else if fields.len() == 1 {
        csv_field(fields[0])
    } else {
        csv_fields(fields.drop_last()) + seq![','] + csv_field(fields.last())
    }
}

/// One CSV line: the fields separated by commas, then a line feed.
pub open spec fn csv_line(fields: Seq<Seq<char>>) -> Seq<char> {
    csv_fields(fields).push('\n')
}

/// A quoted field's inside read back: each pair of double quotes stands for one.
pub open spec fn undouble_quotes(s: Seq<char>) -> Seq<char>
    decreases s.len(),
{
    if s.len() == 0 {
        Seq::empty()
    } else if s.len() >= 2 && s[0] == '"' && s[1] == '"' {
        seq!['"'] + undouble_quotes(s.subrange(2, s.len() as int))
    } else {
        seq![s[0]] + undouble_quotes(s.drop_first())
    }
}

/// A CSV field read back: a quoted field loses its quotes and has its doubled quotes
/// undone; another field is taken as it is.
pub open spec fn read_csv_field(f: Seq<char>) -> Seq<char> {
    if f.len() >= 2 && f[0] == '"' && f.last() == '"' {
        undouble_quotes(f.subrange(1, f.len() - 1))
    } else {
        f
    }
}

proof fn lemma_double_quotes_prepend(c: char, s: Seq<char>)
    ensures
        double_quotes(seq![c] + s) == (if c == '"' { seq!['"', '"'] } else { seq![c] }) + double_quotes(s),
    decreases s.len(),
{
    let cs = if c == '"' { seq!['"', '"'] } else { seq![c] };
    if s.len() == 0 {
        assert(seq![c] + s == seq![c]);
        assert((seq![c]).drop_last() =~= Seq::<char>::empty());
        assert(double_quotes(Seq::<char>::empty()) == Seq::<char>::empty());
        assert(double_quotes(seq![c]) =~= cs);
    } else {
        assert((seq![c] + s).drop_last() == seq![c] + s.drop_last());
        lemma_double_quotes_prepend(c, s.drop_last());
        assert((seq![c] + s).last() == s.last());
        if s.last() == '"' {
            assert(cs + double_quotes(s.drop_last()) + seq!['"', '"'] =~= cs + (double_quotes(s.drop_last()) + seq!['"', '"']));
        } else {
            assert((cs + double_quotes(s.drop_last())).push(s.last()) =~= cs + double_quotes(s.drop_last()).push(s.last()));
        }
    }
}

proof fn lemma_undouble_double(s: Seq<char>)
    ensures
        undouble_quotes(double_quotes(s)) == s,
    decreases s.len(),
{
    if s.len() == 0 {
        assert(double_quotes(s) == Seq::<char>::empty());
    } else {
        let c = s[0];
        let rest = s.drop_first();
        assert(s == seq![c] + rest);
        lemma_double_quotes_prepend(c, rest);
        lemma_undouble_double(rest);
        let d = double_quotes(s);
        if c == '"' {
            assert(d == seq!['"', '"'] + double_quotes(rest));
            assert(d.subrange(2, d.len() as int) =~= double_quotes(rest));
        } else {
            assert(d == seq![c] + double_quotes(rest));
            assert(d.drop_first() =~= double_quotes(rest));
            if d.len() >= 2 && d[0] == '"' {
                assert(false);
            }
        }
        assert(undouble_quotes(d) =~= s);
    }
}

/// Reading a written field back gives the field: quoting loses nothing. A field that
/// needs no quotes must not itself look quoted (start and end with `"`), which holds
/// since a quote forces quotes.
pub proof fn lemma_read_csv_field(s: Seq<char>)
    ensures
        read_csv_field(csv_field(s)) == s,
{
    if needs_quotes(s) {
        let f = csv_field(s);
        lemma_undouble_double(s);
        assert(f.subrange(1, f.len() - 1) =~= double_quotes(s));
    } else {
        if s.len() >= 2 && s[0] == '"' && s.last() == '"' {
            assert(is_csv_special(s[0]));
            assert(false);
        }
    }
}

/// Writes one field for a CSV file (see `csv_field`).
pub fn escape_csv_field(field: &str) -> (r: String)
    ensures
        r@ == csv_field(field@),
{
    let s = chars_of(field);
    let mut special = false;
    let mut i: usize = 0;
    while i < s.len()
        invariant
            i <= s.len(),
            special == exists|k: int| 0 <= k < i && is_csv_special(#[trigger] s@[k]),
        decreases s.len() - i,
    {
        if s[i] == ',' || s[i] == '"' || s[i] == '\n' || s[i] == '\r' {
            special = true;
        }
        i = i + 1;
    }
    if !special {
        return String::from_str(field);
    }
    let mut out: Vec<char> = Vec::new();
    out.push('"');
    let mut j: usize = 0;
    while j < s.len()
        invariant
            j <= s.len(),
            out@ == seq!['"'] + double_quotes(s@.take(j as int)),
        decreases s.len() - j,
    {
        assert(s@.take(j + 1).drop_last() == s@.take(j as int));
        if s[j] == '"' {
            out.push('"');
            out.push('"');
        } else {
            out.push(s[j]);
        }
        j = j + 1;
        assert(out@ =~= seq!['"'] + double_quotes(s@.take(j as int)));
    }
    out.push('"');
    assert(s@.take(s.len() as int) == s@);
    string_of(&out)
}

/// Appends one CSV line made of `fields` to `csv`.
pub fn push_csv_row(csv: &mut String, fields: &[&str])
    ensures
        final(csv)@ == old(csv)@ + csv_line(fields@.map_values(|f: &str| f@)),
{
    let ghost fs = fields@.map_values(|f: &str| f@);
    let ghost start = csv@;
    let mut k: usize = 0;
    while k < fields.len()
        invariant
            k <= fields.len(),
            fs == fields@.map_values(|f: &str| f@),
            csv@ == start + csv_fields(fs.take(k as int)),
        decreases fields.len() - k,
    {
        assert(fs.take(k + 1).drop_last() == fs.take(k as int));
        assert(fs[k as int] == fields@[k as int]@);
        if k > 0 {
            csv.append(",");
        }
        let f = escape_csv_field(fields[k]);
        csv.append(f.as_str());
        proof {
            reveal_strlit(",");
            if k == 0 {
                assert(fs.take(1) =~= seq![fs[0]]);
                assert(csv_fields(fs.take(0)) =~= Seq::<char>::empty());
            }
        }
        k = k + 1;
        assert(csv@ =~= start + csv_fields(fs.take(k as int)));
    }
    csv.append("\n");
    proof {
        reveal_strlit("\n");
        assert(fs.take(fields.len() as int) == fs);
    }
    assert(csv@ =~= start + csv_line(fs));
}

/// The first line of the live export.
pub open spec fn live_header() -> Seq<char> {
    "文件名,开播时间,直播时长,PV,累计观看人数,ACU\n"@
}

/// The first line of the video export.
pub open spec fn video_header() -> Seq<char> {
    "文件名,播放量,点赞量,评论量\n"@
}

/// The CSV line of a live row.
pub open spec fn live_line(r: LiveRow) -> Seq<char> {
    csv_line(seq![r.file_name@, r.start_time@, r.duration_seconds@, r.pv@, r.total_viewers@, r.acu@])
}

/// The CSV line of a video row.
pub open spec fn video_line(r: VideoRow) -> Seq<char> {
    csv_line(seq![r.file_name@, r.play_count@, r.like_count@, r.comment_count@])
}

/// The lines of live rows, one after another.
pub open spec fn live_lines(rows: Seq<LiveRow>) -> Seq<char>
    decreases rows.len(),
{
    if rows.len() == 0 {
        Seq::empty()
    } else {
        live_lines(rows.drop_last()) + live_line(rows.last())
    }
}

/// The lines of video rows, one after another.
pub open spec fn video_lines(rows: Seq<VideoRow>) -> Seq<char>
    decreases rows.len(),
{
    if rows.len() == 0 {
        Seq::empty()
    } else {
        video_lines(rows.drop_last()) + video_line(rows.last())
    }
}

/// The live export file: the header line, then one line per row.
pub fn render_live_csv(rows: &[LiveRow]) -> (r: String)
    ensures
        r@ == live_header() + live_lines(rows@),
{
    let mut csv = String::from_str("文件名,开播时间,直播时长,PV,累计观看人数,ACU\n");
    let mut k: usize = 0;
    while k < rows.len()
        invariant
            k <= rows.len(),
            csv@ == live_header() + live_lines(rows@.take(k as int)),
        decreases rows.len() - k,
    {
        let row = &rows[k];
        let fields: [&str; 6] = [
            row.file_name.as_str(),
            row.start_time.as_str(),
            row.duration_seconds.as_str(),
            row.pv.as_str(),
            row.total_viewers.as_str(),
            row.acu.as_str(),
        ];
        assert(fields@.map_values(|f: &str| f@) =~= seq![row.file_name@, row.start_time@,
            row.duration_seconds@, row.pv@, row.total_viewers@, row.acu@]);
        push_csv_row(&mut csv, &fields);
        assert(rows@.take(k + 1).drop_last() == rows@.take(k as int));
        k = k + 1;
        assert(csv@ =~= live_header() + live_lines(rows@.take(k as int)));
    }
    assert(rows@.take(rows.len() as int) == rows@);
    csv
}

/// The video export file: the header line, then one line per row.
pub fn render_video_csv(rows: &[VideoRow]) -> (r: String)
    ensures
        r@ == video_header() + video_lines(rows@),
{
    let mut csv = String::from_str("文件名,播放量,点赞量,评论量\n");
    let mut k: usize = 0;
    while k < rows.len()
        invariant
            k <= rows.len(),
            csv@ == video_header() + video_lines(rows@.take(k as int)),
        decreases rows.len() - k,
    {
        let row = &rows[k];
        let fields: [&str; 4] = [
            row.file_name.as_str(),
            row.play_count.as_str(),
            row.like_count.as_str(),
            row.comment_count.as_str(),
        ];
        assert(fields@.map_values(|f: &str| f@) =~= seq![row.file_name@, row.play_count@,
            row.like_count@, row.comment_count@]);
        push_csv_row(&mut csv, &fields);
        assert(rows@.take(k + 1).drop_last() == rows@.take(k as int));
        k = k + 1;
        assert(csv@ =~= video_header() + video_lines(rows@.take(k as int)));
    }
    assert(rows@.take(rows.len() as int) == rows@);
    csv
}

} // verus!
