//! The integer side of the resident point cloud: splitting the row-major
//! buffer into columns, the per-sensor row index built once at load time,
//! sensor selection by bitmask, and the choice of the two readings that
//! bracket an instant within one sensor's rows.
use vstd::prelude::*;

verus! {

/// Values per row of the flat point-cloud buffer:
/// sensor index, latitude, longitude, temperature, vibration, timestamp.
pub const ROW_LEN: usize = 6;

/// The values at position `offset` of each complete row of a flat,
/// row-major buffer with `row_len` values per row (a trailing partial row
/// is ignored).
pub open spec fn field_of<V>(flat: Seq<V>, row_len: nat, offset: nat) -> Seq<V>
    recommends
        offset < row_len,
{
    Seq::new(flat.len() / row_len, |i: int| flat[i * row_len + offset])
}

/// The indices `i < n` with `keep(i)`, in increasing order.
pub open spec fn indices_where(n: nat, keep: spec_fn(int) -> bool) -> Seq<u32>
    decreases n,
{
    if n == 0 {
        Seq::empty()
    } else {
        let prev = indices_where((n - 1) as nat, keep);
        if keep(n - 1) {
            prev.push((n - 1) as u32)
        } else {
            prev
        }
    }
}

/// Whether bit `sensor` of `mask` is set.
pub open spec fn selects(mask: u32, sensor: u32) -> bool {
    mask & (1u32 << sensor) != 0
}

/// The test "row `i` belongs to `sensor`".
pub open spec fn row_of_sensor(ids: Seq<u32>, sensor: int) -> spec_fn(int) -> bool {
    |i: int| ids[i] == sensor
}

/// The test "`mask` selects the sensor of row `i`".
pub open spec fn row_selected(ids: Seq<u32>, mask: u32) -> spec_fn(int) -> bool {
    |i: int| selects(mask, ids[i])
}

/// The test "sensor `s` has at least one row and `mask` selects it".
pub open spec fn sensor_active(ids: Seq<u32>, mask: u32) -> spec_fn(int) -> bool {
    |s: int| sensor_rows(ids, s).len() > 0 && selects(mask, s as u32)
}

/// Among the first `n` rows, those whose sensor is `sensor`, in row order.
pub open spec fn sensor_rows_upto(ids: Seq<u32>, sensor: int, n: nat) -> Seq<u32> {
    indices_where(n, row_of_sensor(ids, sensor))
}

/// The rows whose sensor is `sensor`, in row order.
pub open spec fn sensor_rows(ids: Seq<u32>, sensor: int) -> Seq<u32> {
    sensor_rows_upto(ids, sensor, ids.len())
}

/// Among the first `n` rows, those whose sensor is selected by `mask`, in
/// row order.
pub open spec fn selected_rows_upto(ids: Seq<u32>, mask: u32, n: nat) -> Seq<u32> {
    indices_where(n, row_selected(ids, mask))
}

/// Among the first `n` sensors, those that have at least one row and are
/// selected by `mask`, in increasing order.
pub open spec fn active_sensors_upto(ids: Seq<u32>, mask: u32, n: nat) -> Seq<u32> {
    indices_where(n, sensor_active(ids, mask))
}

/// What `indices_where` holds: exactly the indices below `n` that satisfy
/// `keep`, each once, in strictly increasing order.
pub proof fn lemma_indices_where(n: nat, keep: spec_fn(int) -> bool)
    requires
        n <= u32::MAX + 1,
    ensures
        forall|k: int|
            0 <= k < indices_where(n, keep).len() ==> indices_where(n, keep)[k] < n && keep(
                indices_where(n, keep)[k] as int,
            ),
        forall|k1: int, k2: int|
            0 <= k1 < k2 < indices_where(n, keep).len() ==> indices_where(n, keep)[k1]
                < indices_where(n, keep)[k2],
        forall|i: int| 0 <= i < n && #[trigger] keep(i) ==> indices_where(n, keep).contains(i as u32),
        indices_where(n, keep).len() <= n,
    decreases n,
{
    if n > 0 {
        lemma_indices_where((n - 1) as nat, keep);
        let prev = indices_where((n - 1) as nat, keep);
        if keep(n - 1) {
            let cur = prev.push((n - 1) as u32);
            assert forall|i: int| 0 <= i < n && #[trigger] keep(i) implies cur.contains(i as u32) by {
                if i == n - 1 {
                    assert(cur[prev.len() as int] == i as u32);
                } else {
                    let k = choose|k: int| 0 <= k < prev.len() && prev[k] == i as u32;
                    assert(cur[k] == i as u32);
                }
            }
        } else {
            assert forall|i: int| 0 <= i < n && #[trigger] keep(i) implies prev.contains(i as u32) by {
                assert(i != n - 1);
            }
        }
    }
}

/// A sensor has rows exactly when some row belongs to it.
pub proof fn lemma_sensor_rows_nonempty(ids: Seq<u32>, sensor: int)
    requires
        ids.len() <= u32::MAX,
    ensures
        sensor_rows(ids, sensor).len() > 0 <==> exists|i: int|
            0 <= i < ids.len() && ids[i] == sensor,
{
    let keep = row_of_sensor(ids, sensor);
    lemma_indices_where(ids.len(), keep);
    let rows = sensor_rows(ids, sensor);
    if rows.len() > 0 {
        assert(keep(rows[0] as int));
        assert(ids[rows[0] as int] == sensor);
    }
    if exists|i: int| 0 <= i < ids.len() && ids[i] == sensor {
        let i = choose|i: int| 0 <= i < ids.len() && ids[i] == sensor;
        assert(keep(i));
        assert(rows.contains(i as u32));
    }
}

/// Each row is listed under its own sensor and under no other, each
/// sensor's list holds only its own rows, and lists are in row order.
pub proof fn lemma_rows_partitioned(ids: Seq<u32>, row: int, sensor: int)
    requires
        ids.len() <= u32::MAX,
        0 <= row < ids.len(),
    ensures
        sensor_rows(ids, sensor).contains(row as u32) <==> ids[row] == sensor,
        forall|k: int|
            0 <= k < sensor_rows(ids, sensor).len() ==> ids[sensor_rows(ids, sensor)[k] as int]
                == sensor,
        forall|k1: int, k2: int|
            0 <= k1 < k2 < sensor_rows(ids, sensor).len() ==> sensor_rows(ids, sensor)[k1]
                < sensor_rows(ids, sensor)[k2],
{
    let keep = row_of_sensor(ids, sensor);
    lemma_indices_where(ids.len(), keep);
    let rows = sensor_rows(ids, sensor);
    if ids[row] == sensor {
        assert(keep(row));
    }
    if rows.contains(row as u32) {
        let k = choose|k: int| 0 <= k < rows.len() && rows[k] == row as u32;
        assert(keep(rows[k] as int));
    }
    assert forall|k: int| 0 <= k < rows.len() implies ids[rows[k] as int] == sensor by {
        assert(keep(rows[k] as int));
    }
}

/// Membership in `indices_where`: an index below `n` is listed exactly when
/// it passes `keep`.
pub proof fn lemma_indices_where_contains(n: nat, keep: spec_fn(int) -> bool, i: int)
    requires
        n <= u32::MAX + 1,
        0 <= i < n,
    ensures
        indices_where(n, keep).contains(i as u32) <==> keep(i),
{
    lemma_indices_where(n, keep);
    let res = indices_where(n, keep);
    if res.contains(i as u32) {
        let k = choose|k: int| 0 <= k < res.len() && res[k] == i as u32;
        assert(keep(res[k] as int));
        assert(res[k] as int == i);
    }
    if keep(i) {
        assert(res.contains(i as u32));
    }
}

/// Bit `sensor` of `mask` is set exactly when `mask` shifted right by
/// `sensor` is odd: the mask selects sensor `s` by its own bit `s`.
pub proof fn lemma_selects_bit(mask: u32, sensor: u32)
    requires
        sensor < 32,
    ensures
        selects(mask, sensor) <==> (mask >> sensor) & 1u32 == 1u32,
{
    assert((mask & (1u32 << sensor) != 0u32) <==> ((mask >> sensor) & 1u32 == 1u32))
        by (bit_vector)
        requires
            sensor < 32u32,
    ;
}

/// A field has one entry per complete row: `len * row_len <= flat.len() <
/// (len + 1) * row_len`, and entry `i` is the value at `offset` of row `i`.
pub proof fn lemma_field_of<V>(flat: Seq<V>, row_len: nat, offset: nat)
    requires
        row_len > 0,
        offset < row_len,
    ensures
        field_of(flat, row_len, offset).len() * row_len <= flat.len(),
        flat.len() < (field_of(flat, row_len, offset).len() + 1) * row_len,
        forall|i: int|
            0 <= i < field_of(flat, row_len, offset).len() ==> #[trigger] field_of(
                flat,
                row_len,
                offset,
            )[i] == flat[i * row_len + offset],
        forall|i: int|
            0 <= i < field_of(flat, row_len, offset).len() ==> #[trigger] (i * row_len) + offset
                < flat.len(),
{
    let len = field_of(flat, row_len, offset).len();
    lemma_field_len(flat.len() as int, row_len as int, len as int);
    assert forall|i: int| 0 <= i < len implies #[trigger] (i * row_len) + offset < flat.len() by {
        lemma_row_in_bounds(i, len as int, flat.len() as int, row_len as int, offset as int);
    }
}

/// `rows = len / row_len` is the number of complete rows.
proof fn lemma_field_len(len: int, row_len: int, rows: int)
    requires
        len >= 0,
        row_len > 0,
        rows == len / row_len,
    ensures
        rows * row_len <= len < (rows + 1) * row_len,
{
    vstd::arithmetic::div_mod::lemma_fundamental_div_mod(len, row_len);
    vstd::arithmetic::div_mod::lemma_mod_pos_bound(len, row_len);
    assert(rows * row_len <= len < (rows + 1) * row_len) by (nonlinear_arith)
        requires
            len == row_len * rows + len % row_len,
            0 <= len % row_len < row_len,
    ;
}

/// The selected rows are exactly the rows whose sensor's bit is set in the
/// mask, each once, in increasing row order.
pub proof fn lemma_selected_rows(ids: Seq<u32>, mask: u32)
    requires
        ids.len() <= u32::MAX,
        forall|i: int| 0 <= i < ids.len() ==> ids[i] < 32,
    ensures
        forall|i: int|
            0 <= i < ids.len() ==> (selected_rows_upto(ids, mask, ids.len()).contains(i as u32)
                <==> (mask >> ids[i]) & 1u32 == 1u32),
        forall|k: int|
            0 <= k < selected_rows_upto(ids, mask, ids.len()).len() ==> selected_rows_upto(
                ids,
                mask,
                ids.len(),
            )[k] < ids.len(),
        forall|k1: int, k2: int|
            0 <= k1 < k2 < selected_rows_upto(ids, mask, ids.len()).len() ==> selected_rows_upto(
                ids,
                mask,
                ids.len(),
            )[k1] < selected_rows_upto(ids, mask, ids.len())[k2],
{
    lemma_indices_where(ids.len(), row_selected(ids, mask));
    assert forall|i: int| 0 <= i < ids.len() implies (selected_rows_upto(
        ids,
        mask,
        ids.len(),
    ).contains(i as u32) <==> (mask >> ids[i]) & 1u32 == 1u32) by {
        lemma_indices_where_contains(ids.len(), row_selected(ids, mask), i);
        lemma_selects_bit(mask, ids[i]);
    }
}

/// A sensor below the sensor count is active exactly when some row belongs
/// to it and its bit is set in the mask; the active sensors are listed each
/// once, in increasing order.
pub proof fn lemma_active_sensors(ids: Seq<u32>, mask: u32, count: nat)
    requires
        ids.len() <= u32::MAX,
        count <= u32::MAX,
        forall|i: int| 0 <= i < ids.len() ==> ids[i] < 32,
    ensures
        forall|s: u32|
            s < count ==> (#[trigger] active_sensors_upto(ids, mask, count).contains(s) <==> (
            exists|i: int| 0 <= i < ids.len() && ids[i] == s) && (mask >> s) & 1u32 == 1u32),
        forall|k: int|
            0 <= k < active_sensors_upto(ids, mask, count).len() ==> active_sensors_upto(
                ids,
                mask,
                count,
            )[k] < count,
        forall|k1: int, k2: int|
            0 <= k1 < k2 < active_sensors_upto(ids, mask, count).len() ==> active_sensors_upto(
                ids,
                mask,
                count,
            )[k1] < active_sensors_upto(ids, mask, count)[k2],
{
    lemma_indices_where(count, sensor_active(ids, mask));
    assert forall|s: u32| s < count implies (#[trigger] active_sensors_upto(
        ids,
        mask,
        count,
    ).contains(s) <==> (exists|i: int| 0 <= i < ids.len() && ids[i] == s) && (mask >> s) & 1u32
        == 1u32) by {
        lemma_indices_where_contains(count, sensor_active(ids, mask), s as int);
        lemma_sensor_rows_nonempty(ids, s as int);
        if exists|i: int| 0 <= i < ids.len() && ids[i] == s {
            let i = choose|i: int| 0 <= i < ids.len() && ids[i] == s;
            assert(ids[i] < 32);
            lemma_selects_bit(mask, s);
        }
    }
}

/// A value of a complete row lies within the buffer.
proof fn lemma_row_in_bounds(i: int, rows: int, len: int, row_len: int, offset: int)
    requires
        0 <= i < rows,
        len >= 0,
        row_len > 0,
        rows == len / row_len,
        0 <= offset < row_len,
    ensures
        0 <= i * row_len,
        i * row_len + offset < len,
{
    vstd::arithmetic::div_mod::lemma_fundamental_div_mod(len, row_len);
    vstd::arithmetic::div_mod::lemma_mod_pos_bound(len, row_len);
    assert(i * row_len + offset < len) by (nonlinear_arith)
        requires
            0 <= i < rows,
            row_len > 0,
            0 <= offset < row_len,
            len == row_len * rows + len % row_len,
            0 <= len % row_len,
    ;
    assert(0 <= i * row_len) by (nonlinear_arith)
        requires
            0 <= i,
            row_len > 0,
    ;
}

/// The values at position `offset` of each complete row of `flat`, a
/// row-major buffer with `row_len` values per row.
pub fn extract_field<V: Copy>(flat: &[V], row_len: usize, offset: usize) -> (field: Vec<V>)
    requires
        offset < row_len,
    ensures
        field@ == field_of(flat@, row_len as nat, offset as nat),
        field@.len() * row_len <= flat@.len() < (field@.len() + 1) * row_len,
        forall|i: int| 0 <= i < field@.len() ==> #[trigger] field@[i] == flat@[i * row_len + offset],
        forall|i: int|
            0 <= i < field@.len() ==> #[trigger] (i * row_len) + offset < flat@.len(),
{
    let len = flat.len();
    let rows = len / row_len;
    let mut field: Vec<V> = Vec::with_capacity(rows);
    let mut i: usize = 0;
    while i < rows
        invariant
            len == flat@.len(),
            rows == flat@.len() / (row_len as nat),
            offset < row_len,
            i <= rows,
            field@.len() == i,
            forall|k: int| 0 <= k < i ==> field@[k] == flat@[k * row_len + offset],
        decreases rows - i,
    {
        proof {
            lemma_row_in_bounds(i as int, rows as int, flat@.len() as int, row_len as int, offset as int);
        }
        let base = i * row_len;
        let value = flat[base + offset];
        field.push(value);
        i = i + 1;
    }
    assert(field@ == field_of(flat@, row_len as nat, offset as nat));
    proof {
        lemma_field_of(flat@, row_len as nat, offset as nat);
    }
    field
}

/// Whether `mask` selects `sensor` (bit `sensor` of `mask` is set).
pub fn sensor_selected(mask: u32, sensor: u32) -> (selected: bool)
    requires
        sensor < 32,
    ensures
        selected == selects(mask, sensor),
        selected <==> (mask >> sensor) & 1u32 == 1u32,
{
    proof {
        lemma_selects_bit(mask, sensor);
    }
    mask & (1u32 << sensor) != 0
}

/// Positions, within a non-empty list of `len` rows of which the first
/// `split` lie at or before an instant, of the two readings that bracket the
/// instant: the last row before the split (or the first row), and the first
/// row from the split on (or the last row).
pub open spec fn bracket_positions(split: int, len: int) -> (int, int) {
    (
        if split == 0 {
            0
        } else {
            split - 1
        },
        if split < len {
            split
        } else {
            len - 1
        },
    )
}

/// The two rows that bracket an instant within one sensor's rows, given the
/// number `split` of its rows that lie at or before the instant: the last of
/// those (or the first row if there is none) and the first of the others
/// (or the last row if there is none).
pub fn bracket(rows: &[u32], split: usize) -> (pair: (u32, u32))
    requires
        rows@.len() > 0,
        split <= rows@.len(),
    ensures
        pair.0 == rows@[bracket_positions(split as int, rows@.len() as int).0],
        pair.1 == rows@[bracket_positions(split as int, rows@.len() as int).1],
        split > 0 ==> pair.0 == rows@[split - 1],
        split == 0 ==> pair.0 == rows@[0],
        split < rows@.len() ==> pair.1 == rows@[split as int],
        split == rows@.len() ==> pair.1 == rows@[rows@.len() - 1],
{
    let lo_pos = split.saturating_sub(1);
    let hi_pos = if split < rows.len() - 1 {
        split
    } else {
        rows.len() - 1
    };
    (rows[lo_pos], rows[hi_pos])
}

/// The bracketing positions lie in the list, the second is the first or the
/// one right after it, and strictly inside the list they are adjacent.
pub proof fn lemma_bracket_positions(split: int, len: int)
    requires
        len > 0,
        0 <= split <= len,
    ensures
        0 <= bracket_positions(split, len).0 <= bracket_positions(split, len).1 < len,
        bracket_positions(split, len).1 <= bracket_positions(split, len).0 + 1,
        0 < split < len ==> bracket_positions(split, len).1 == bracket_positions(split, len).0
            + 1,
{
}

/// The point cloud's rows as sensor indices, with the rows of each sensor
/// listed in row order, so that the readings of one sensor can be searched
/// without scanning the whole cloud.
pub struct SensorIndex {
    sensor_idx: Vec<u32>,
    by_sensor: Vec<Vec<u32>>,
}

impl SensorIndex {
    /// The sensor of each row.
    pub closed spec fn row_sensors(self) -> Seq<u32> {
        self.sensor_idx@
    }

    /// The number of sensors.
    pub closed spec fn sensors(self) -> nat {
        self.by_sensor@.len()
    }

    #[verifier::type_invariant]
    closed spec fn wf(self) -> bool {
        &&& self.sensor_idx@.len() <= u32::MAX
        &&& self.by_sensor@.len() <= u32::MAX
        &&& forall|i: int|
            0 <= i < self.sensor_idx@.len() ==> self.sensor_idx@[i] < self.by_sensor@.len()
        &&& forall|s: int|
            0 <= s < self.by_sensor@.len() ==> self.by_sensor@[s]@ == sensor_rows(
                self.sensor_idx@,
                s,
            )
    }

    /// Indexes `sensor_idx`, the sensor of each row, for `sensor_count`
    /// sensors: each sensor's rows are listed in row order.
    pub fn new(sensor_idx: Vec<u32>, sensor_count: u32) -> (index: Self)
        requires
            sensor_idx@.len() <= u32::MAX,
            forall|i: int| 0 <= i < sensor_idx@.len() ==> sensor_idx@[i] < sensor_count,
        ensures
            index.row_sensors() == sensor_idx@,
            index.sensors() == sensor_count,
    {
        let mut by_sensor: Vec<Vec<u32>> = Vec::new();
        let mut s: u32 = 0;
        while s < sensor_count
            invariant
                s <= sensor_count,
                by_sensor@.len() == s,
                forall|k: int| 0 <= k < s ==> by_sensor@[k]@ == Seq::<u32>::empty(),
            decreases sensor_count - s,
        {
            by_sensor.push(Vec::new());
            s = s + 1;
        }
        let rows = sensor_idx.len();
        let mut i: usize = 0;
        while i < rows
            invariant
                rows == sensor_idx@.len(),
                rows <= u32::MAX,
                i <= rows,
                by_sensor@.len() == sensor_count,
                forall|k: int| 0 <= k < sensor_idx@.len() ==> sensor_idx@[k] < sensor_count,
                forall|t: int|
                    0 <= t < sensor_count ==> by_sensor@[t]@ == sensor_rows_upto(
                        sensor_idx@,
                        t,
                        i as nat,
                    ),
            decreases rows - i,
        {
            let sensor = sensor_idx[i] as usize;
            let ghost before = by_sensor@;
            by_sensor[sensor].push(i as u32);
            assert(by_sensor@.len() == before.len());
            assert(by_sensor@[sensor as int]@ == before[sensor as int]@.push(i as u32));
            assert forall|t: int| 0 <= t < sensor_count implies by_sensor@[t]@ == sensor_rows_upto(
                sensor_idx@,
                t,
                (i + 1) as nat,
            ) by {
                let keep = row_of_sensor(sensor_idx@, t);
                assert(before[t]@ == sensor_rows_upto(sensor_idx@, t, i as nat));
                assert(indices_where((i + 1) as nat, keep) == (if keep(i as int) {
                    indices_where(i as nat, keep).push(i as u32)
                } else {
                    indices_where(i as nat, keep)
                }));
                if t != sensor {
                    assert(!keep(i as int));
                    assert(by_sensor@[t] == before[t]);
                } else {
                    assert(keep(i as int));
                }
            }
            i = i + 1;
        }
        SensorIndex { sensor_idx, by_sensor }
    }

    /// The number of rows.
    pub fn len(&self) -> (n: usize)
        ensures
            n == self.row_sensors().len(),
    {
        self.sensor_idx.len()
    }

    /// The number of sensors.
    pub fn sensor_count(&self) -> (n: usize)
        ensures
            n == self.sensors(),
    {
        self.by_sensor.len()
    }

    /// The sensor of `row`.
    pub fn sensor_of(&self, row: usize) -> (sensor: u32)
        requires
            row < self.row_sensors().len(),
        ensures
            sensor == self.row_sensors()[row as int],
    {
        self.sensor_idx[row]
    }

    /// Whether every row's sensor can be selected by a 32-bit mask (its index
    /// is below 32).
    pub fn fits_mask(&self) -> (fits: bool)
        ensures
            fits <==> forall|i: int|
                0 <= i < self.row_sensors().len() ==> self.row_sensors()[i] < 32,
    {
        proof {
            use_type_invariant(self);
        }
        let count = self.by_sensor.len();
        let mut s: usize = 32;
        while s < count
            invariant
                count == self.by_sensor@.len(),
                32 <= s,
                self.sensor_idx@.len() <= u32::MAX,
                forall|i: int|
                    0 <= i < self.sensor_idx@.len() ==> self.sensor_idx@[i] < self.by_sensor@.len(),
                forall|t: int|
                    0 <= t < self.by_sensor@.len() ==> self.by_sensor@[t]@ == sensor_rows(
                        self.sensor_idx@,
                        t,
                    ),
                forall|i: int|
                    0 <= i < self.sensor_idx@.len() ==> (self.sensor_idx@[i] < 32
                        || self.sensor_idx@[i] >= s),
            decreases count - s,
        {
            proof {
                lemma_sensor_rows_nonempty(self.sensor_idx@, s as int);
            }
            if self.by_sensor[s].len() > 0 {
                proof {
                    let r = choose|r: int|
                        0 <= r < self.sensor_idx@.len() && self.sensor_idx@[r] == s as int;
                    assert(!(self.row_sensors()[r] < 32));
                }
                return false;
            }
            s = s + 1;
        }
        true
    }

    /// The rows of `sensor`, in row order.
    pub fn rows(&self, sensor: usize) -> (rows: &Vec<u32>)
        requires
            sensor < self.sensors(),
        ensures
            rows@ == sensor_rows(self.row_sensors(), sensor as int),
            forall|i: int|
                0 <= i < self.row_sensors().len() ==> (rows@.contains(i as u32)
                    <==> self.row_sensors()[i] == sensor),
            forall|k: int|
                0 <= k < rows@.len() ==> rows@[k] < self.row_sensors().len()
                    && self.row_sensors()[rows@[k] as int] == sensor,
            forall|k1: int, k2: int| 0 <= k1 < k2 < rows@.len() ==> rows@[k1] < rows@[k2],
    {
        proof {
            use_type_invariant(self);
            lemma_indices_where(self.row_sensors().len(), row_of_sensor(self.row_sensors(), sensor as int));
            assert forall|i: int| 0 <= i < self.row_sensors().len() implies (sensor_rows(
                self.row_sensors(),
                sensor as int,
            ).contains(i as u32) <==> self.row_sensors()[i] == sensor) by {
                lemma_rows_partitioned(self.row_sensors(), i, sensor as int);
            }
        }
        &self.by_sensor[sensor]
    }

    /// Every row whose sensor `mask` selects, in row order.
    pub fn selected_rows(&self, mask: u32) -> (rows: Vec<u32>)
        requires
            forall|i: int| 0 <= i < self.row_sensors().len() ==> self.row_sensors()[i] < 32,
        ensures
            rows@ == selected_rows_upto(
                self.row_sensors(),
                mask,
                self.row_sensors().len(),
            ),
            forall|i: int|
                0 <= i < self.row_sensors().len() ==> (rows@.contains(i as u32) <==> (mask
                    >> self.row_sensors()[i]) & 1u32 == 1u32),
            forall|k: int| 0 <= k < rows@.len() ==> rows@[k] < self.row_sensors().len(),
            forall|k1: int, k2: int| 0 <= k1 < k2 < rows@.len() ==> rows@[k1] < rows@[k2],
    {
        proof {
            use_type_invariant(self);
            lemma_selected_rows(self.row_sensors(), mask);
        }
        let n = self.sensor_idx.len();
        let mut out: Vec<u32> = Vec::new();
        let mut i: usize = 0;
        while i < n
            invariant
                n == self.sensor_idx@.len(),
                n <= u32::MAX,
                i <= n,
                forall|k: int| 0 <= k < self.row_sensors().len() ==> self.row_sensors()[k] < 32,
                out@ == selected_rows_upto(self.sensor_idx@, mask, i as nat),
            decreases n - i,
        {
            proof {
                assert(self.row_sensors()[i as int] < 32);
            }
            if sensor_selected(mask, self.sensor_idx[i]) {
                out.push(i as u32);
            }
            i = i + 1;
        }
        out
    }

    /// Every sensor that has at least one row and that `mask` selects, in
    /// increasing order.
    pub fn active_sensors(&self, mask: u32) -> (sensors: Vec<u32>)
        requires
            forall|i: int| 0 <= i < self.row_sensors().len() ==> self.row_sensors()[i] < 32,
        ensures
            sensors@ == active_sensors_upto(self.row_sensors(), mask, self.sensors()),
            forall|s: u32|
                s < self.sensors() ==> (#[trigger] sensors@.contains(s) <==> (exists|i: int|
                    0 <= i < self.row_sensors().len() && self.row_sensors()[i] == s) && (mask >> s)
                    & 1u32 == 1u32),
            forall|k: int| 0 <= k < sensors@.len() ==> sensors@[k] < self.sensors(),
            forall|k1: int, k2: int|
                0 <= k1 < k2 < sensors@.len() ==> sensors@[k1] < sensors@[k2],
    {
        proof {
            use_type_invariant(self);
            lemma_active_sensors(self.row_sensors(), mask, self.sensors());
        }
        let count = self.by_sensor.len();
        let mut out: Vec<u32> = Vec::new();
        let mut s: usize = 0;
        while s < count
            invariant
                count == self.by_sensor@.len(),
                count <= u32::MAX,
                s <= count,
                self.sensor_idx@.len() <= u32::MAX,
                forall|k: int| 0 <= k < self.row_sensors().len() ==> self.row_sensors()[k] < 32,
                forall|t: int|
                    0 <= t < self.by_sensor@.len() ==> self.by_sensor@[t]@ == sensor_rows(
                        self.sensor_idx@,
                        t,
                    ),
                out@ == active_sensors_upto(self.sensor_idx@, mask, s as nat),
            decreases count - s,
        {
            let has_rows = self.by_sensor[s].len() > 0;
            if has_rows {
                proof {
                    lemma_sensor_rows_nonempty(self.sensor_idx@, s as int);
                    let r = choose|r: int|
                        0 <= r < self.sensor_idx@.len() && self.sensor_idx@[r] == s as int;
                    assert(self.row_sensors()[r] < 32);
                }
                if sensor_selected(mask, s as u32) {
                    out.push(s as u32);
                }
            }
            s = s + 1;
        }
        out
    }
}

} // verus!
